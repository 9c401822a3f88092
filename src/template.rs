//! Time columns out of a template's header row.
use vstd::prelude::*;
use crate::label::{normalize, push_normalized};
use crate::text::{chars_of, string_of_range, trim, trim_range};

verus! {

pub open spec fn is_bracket(c: char) -> bool {
    c == '【' || c == '】'
}

/// `s` without any `【` or `】`.
pub open spec fn strip_brackets(s: Seq<char>) -> Seq<char>
    decreases s.len(),
{
    if s.len() == 0 {
        s
    } else if is_bracket(s.last()) {
        strip_brackets(s.drop_last())
    } else {
        strip_brackets(s.drop_last()).push(s.last())
    }
}

/// The column label that a header cell gives: its text trimmed and
/// stripped of brackets, then normalized; none for a cell without text or
/// one that nothing is left of.
pub open spec fn column_of(cell: Option<Seq<char>>) -> Option<Seq<char>> {
    match cell {
        Some(s) => {
            let c = strip_brackets(trim(s));
            if c.len() > 0 {
                Some(normalize(c))
            } else {
                None
            }
        },
        None => None,
    }
}

/// The labels that `cells` give, in order.
pub open spec fn labels_of(cells: Seq<Option<Seq<char>>>) -> Seq<Seq<char>>
    decreases cells.len(),
{
    if cells.len() == 0 {
        seq![]
    } else {
        match column_of(cells.last()) {
            Some(l) => labels_of(cells.drop_last()).push(l),
            None => labels_of(cells.drop_last()),
        }
    }
}

/// The time columns of a header row: the labels of every cell but the
/// first, which names the date column.
pub open spec fn header_labels(cells: Seq<Option<Seq<char>>>) -> Seq<Seq<char>> {
    if cells.len() == 0 {
        seq![]
    } else {
        labels_of(cells.drop_first())
    }
}

pub open spec fn cell_text(c: Option<String>) -> Option<Seq<char>> {
    match c {
        Some(s) => Some(s@),
        None => None,
    }
}

pub open spec fn texts_of(v: Seq<String>) -> Seq<Seq<char>> {
    v.map_values(|s: String| s@)
}

/// The column label of one header cell.
pub fn header_cell_label(cell: &Option<String>) -> (r: Option<String>)
    ensures
        cell_text(r) == column_of(cell_text(*cell)),
{
    match cell {
        Some(s) => {
            let cs = chars_of(s.as_str());
            let (a, b) = trim_range(&cs, 0, cs.len());
            assert(cs@.subrange(0, cs@.len() as int) =~= cs@);
            let ghost t = cs@.subrange(a as int, b as int);
            let mut cleaned: Vec<char> = Vec::new();
            let mut i: usize = a;
            while i < b
                invariant
                    a <= i <= b <= cs@.len(),
                    t == cs@.subrange(a as int, b as int),
                    cleaned@ == strip_brackets(t.take(i - a)),
                decreases b - i,
            {
                let c = cs[i];
                assert(t.take(i - a + 1).drop_last() =~= t.take(i - a));
                if c != '【' && c != '】' {
                    cleaned.push(c);
                }
                i = i + 1;
            }
            assert(t.take(b - a) =~= t);
            if cleaned.len() == 0 {
                return None;
            }
            let mut out: Vec<char> = Vec::new();
            push_normalized(&mut out, &cleaned, 0, cleaned.len());
            assert(cleaned@.subrange(0, cleaned@.len() as int) =~= cleaned@);
            let l = string_of_range(&out, 0, out.len());
            assert(l@ =~= out@);
            Some(l)
        },
        None => None,
    }
}

/// The time columns that a template's header row declares, left to right:
/// every cell after the first that holds text which trimming and removing
/// `【` and `】` leave non-empty, in its normal form. Duplicates stay.
pub fn template_columns(header: &Vec<Option<String>>) -> (r: Vec<String>)
    ensures
        texts_of(r@) == header_labels(header@.map_values(|c: Option<String>| cell_text(c))),
{
    let ghost cells = header@.map_values(|c: Option<String>| cell_text(c));
    let mut out: Vec<String> = Vec::new();
    if header.len() == 0 {
        assert(texts_of(out@) =~= seq![]);
        return out;
    }
    let ghost rest = cells.drop_first();
    let mut i: usize = 1;
    assert(rest.take(0) =~= seq![]);
    assert(texts_of(out@) =~= seq![]);
    while i < header.len()
        invariant
            1 <= i <= header@.len(),
            cells == header@.map_values(|c: Option<String>| cell_text(c)),
            rest == cells.drop_first(),
            texts_of(out@) == labels_of(rest.take(i - 1)),
        decreases header@.len() - i,
    {
        assert(rest.take(i as int).drop_last() =~= rest.take(i - 1));
        assert(rest.take(i as int).last() == cell_text(header@[i as int]));
        match header_cell_label(&header[i]) {
            Some(l) => {
                out.push(l);
                assert(texts_of(out@) =~= labels_of(rest.take(i as int)));
            },
            None => {
                assert(texts_of(out@) =~= labels_of(rest.take(i as int)));
            },
        }
        i = i + 1;
    }
    assert(rest.take(i - 1) =~= rest);
    out
}

} // verus!
