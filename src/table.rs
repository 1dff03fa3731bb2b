//! Recognising residence tables by their title and reading their rows.

use vstd::prelude::*;
use crate::extract::{select, select_by_tag};
use crate::text::{chars_of, string_of};

verus! {

broadcast use vstd::std_specs::vec::group_vec_axioms;

pub open spec fn tr_tag() -> Seq<char> {
    seq!['t', 'r']
}

pub open spec fn th_tag() -> Seq<char> {
    seq!['t', 'h']
}

pub open spec fn td_tag() -> Seq<char> {
    seq!['t', 'd']
}

/// `s` without one trailing `s`, if it has one.
pub open spec fn drop_plural(s: Seq<char>) -> Seq<char> {
    if s.len() > 0 && s.last() == 's' {
        s.drop_last()
    } else {
        s
    }
}

/// The title of a table: its first row's first header cell, singularised.
pub open spec fn title_of(table: Seq<char>) -> Option<Seq<char>> {
    let rows = select(table, tr_tag(), false);
    if rows.len() == 0 {
        None
    } else {
        let heads = select(rows[0], th_tag(), true);
        if heads.len() == 0 {
            None
        } else {
            Some(drop_plural(heads[0]))
        }
    }
}

/// The category a table belongs to: its title, when that is one of `cats`.
pub open spec fn classify(table: Seq<char>, cats: Seq<Seq<char>>) -> Option<Seq<char>> {
    match title_of(table) {
        Some(t) => if cats.contains(t) {
            Some(t)
        } else {
            None
        },
        None => None,
    }
}

/// The cells of a row: header cells, then data cells.
pub open spec fn row_cells(row: Seq<char>) -> Seq<Seq<char>> {
    select(row, th_tag(), true) + select(row, td_tag(), true)
}

/// The records of the rows `trs` that have a header cell, in order.
pub open spec fn rows_of(trs: Seq<Seq<char>>) -> Seq<Seq<Seq<char>>>
    decreases trs.len(),
{
    if trs.len() == 0 {
        seq![]
    } else {
        let earlier = rows_of(trs.drop_last());
        if select(trs.last(), th_tag(), true).len() == 0 {
            earlier
        } else {
            earlier.push(row_cells(trs.last()))
        }
    }
}

pub open spec fn parse(table: Seq<char>) -> Seq<Seq<Seq<char>>> {
    rows_of(select(table, tr_tag(), false))
}

/// The records of every table in `tables` that `classify` places, in order.
pub open spec fn collect(tables: Seq<Seq<char>>, cats: Seq<Seq<char>>) -> Seq<Seq<Seq<char>>>
    decreases tables.len(),
{
    if tables.len() == 0 {
        seq![]
    } else {
        let earlier = collect(tables.drop_last(), cats);
        if classify(tables.last(), cats) is Some {
            earlier + parse(tables.last())
        } else {
            earlier
        }
    }
}

fn drop_plural_exec(s: &String) -> (r: String)
    ensures
        r@ == drop_plural(s@),
{
    let c = chars_of(s.as_str());
    if c.len() > 0 && c[c.len() - 1] == 's' {
        string_of(&c, 0, c.len() - 1)
    } else {
        string_of(&c, 0, c.len())
    }
}

fn contains_exec(v: &Vec<String>, s: &String) -> (r: bool)
    ensures
        r == v.deep_view().contains(s@),
{
    let mut k: usize = 0;
    while k < v.len()
        invariant
            k <= v@.len(),
            forall|j: int| 0 <= j < k ==> v.deep_view()[j] != s@,
        decreases v.len() - k,
    {
        if v[k] == *s {
            assert(v.deep_view()[k as int] == s@);
            return true;
        }
        k = k + 1;
    }
    false
}

/// The category of `table` among `categories`: the text of its first row's
/// first header cell, without a trailing `s`, when that is a category.
pub fn classify_table(table: &str, categories: &Vec<String>) -> (r: Option<String>)
    ensures
        match classify(table@, categories.deep_view()) {
            Some(t) => r matches Some(s) && s@ == t,
            None => r is None,
        },
{
    proof {
        reveal_strlit("tr");
        reveal_strlit("th");
    }
    let rows = select_by_tag(table, "tr", false);
    assert("tr"@ =~= tr_tag());
    if rows.len() == 0 {
        return None;
    }
    let heads = select_by_tag(rows[0].as_str(), "th", true);
    assert("th"@ =~= th_tag());
    if heads.len() == 0 {
        return None;
    }
    let title = drop_plural_exec(&heads[0]);
    if contains_exec(categories, &title) {
        Some(title)
    } else {
        None
    }
}

/// One record per row of `table` that has a header cell: its header cells
/// followed by its data cells, markup removed and trimmed.
pub fn parse_rows(table: &str) -> (r: Vec<Vec<String>>)
    ensures
        r.deep_view() == parse(table@),
{
    proof {
        reveal_strlit("tr");
        reveal_strlit("th");
        reveal_strlit("td");
    }
    let trs = select_by_tag(table, "tr", false);
    assert("tr"@ =~= tr_tag());
    assert("th"@ =~= th_tag());
    assert("td"@ =~= td_tag());
    let mut r: Vec<Vec<String>> = Vec::new();
    let mut k: usize = 0;
    while k < trs.len()
        invariant
            k <= trs@.len(),
            trs.deep_view() == select(table@, tr_tag(), false),
            "th"@ == th_tag(),
            "td"@ == td_tag(),
            r.deep_view() == rows_of(trs.deep_view().take(k as int)),
        decreases trs.len() - k,
    {
        let row = trs[k].as_str();
        let mut cells = select_by_tag(row, "th", true);
        let ghost trs_k1 = trs.deep_view().take(k + 1);
        assert(trs_k1.drop_last() =~= trs.deep_view().take(k as int));
        assert(trs_k1.last() == trs[k as int]@);
        assert(cells.deep_view() == select(trs_k1.last(), th_tag(), true));
        assert(cells.deep_view().len() == cells@.len());
        if cells.len() > 0 {
            let data = select_by_tag(row, "td", true);
            let ghost heads = cells.deep_view();
            let mut j: usize = 0;
            while j < data.len()
                invariant
                    j <= data@.len(),
                    cells.deep_view() == heads + data.deep_view().take(j as int),
                decreases data.len() - j,
            {
                let c = data[j].clone();
                assert(c@ == data.deep_view()[j as int]);
                let ghost c0 = cells.deep_view();
                cells.push(c);
                assert(cells.deep_view() =~= c0.push(c@));
                assert(data.deep_view().take(j + 1) =~= data.deep_view().take(j as int).push(c@));
                j = j + 1;
                assert(cells.deep_view() =~= heads + data.deep_view().take(j as int));
            }
            assert(data.deep_view().take(j as int) =~= data.deep_view());
            assert(cells.deep_view() == row_cells(trs_k1.last()));
            let ghost r0 = r.deep_view();
            r.push(cells);
            assert(r.deep_view() =~= r0.push(row_cells(trs_k1.last())));
        }
        k = k + 1;
    }
    assert(trs.deep_view().take(k as int) =~= trs.deep_view());
    r
}

/// The records of all tables that `classify_table` places among
/// `categories`, table after table.
pub fn collect_rows(tables: &Vec<String>, categories: &Vec<String>) -> (r: Vec<Vec<String>>)
    ensures
        r.deep_view() == collect(tables.deep_view(), categories.deep_view()),
{
    let mut r: Vec<Vec<String>> = Vec::new();
    let mut k: usize = 0;
    while k < tables.len()
        invariant
            k <= tables@.len(),
            r.deep_view() == collect(tables.deep_view().take(k as int), categories.deep_view()),
        decreases tables.len() - k,
    {
        let ghost ts = tables.deep_view().take(k + 1);
        assert(ts.drop_last() =~= tables.deep_view().take(k as int));
        assert(ts.last() == tables[k as int]@);
        let table = tables[k].as_str();
        if classify_table(table, categories).is_some() {
            let rows = parse_rows(table);
            let ghost r0 = r.deep_view();
            let mut j: usize = 0;
            while j < rows.len()
                invariant
                    j <= rows@.len(),
                    r.deep_view() == r0 + rows.deep_view().take(j as int),
                decreases rows.len() - j,
            {
                let row = rows[j].clone();
                assert(row.deep_view() == rows.deep_view()[j as int]);
                let ghost q0 = r.deep_view();
                r.push(row);
                assert(r.deep_view() =~= q0.push(row.deep_view()));
                assert(rows.deep_view().take(j + 1) =~= rows.deep_view().take(j as int).push(
                    row.deep_view(),
                ));
                j = j + 1;
                assert(r.deep_view() =~= r0 + rows.deep_view().take(j as int));
            }
            assert(rows.deep_view().take(j as int) =~= rows.deep_view());
        }
        k = k + 1;
    }
    assert(tables.deep_view().take(k as int) =~= tables.deep_view());
    r
}

} // verus!
