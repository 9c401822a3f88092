//! The output grid: a header row, then one row per record, one column per
//! template label.
use vstd::prelude::*;
use crate::label::{normalize, push_normalized};
use crate::log::{models_of, pairs_of, DailyRecord, Reading, RecordModel};
use crate::template::texts_of;
use crate::text::{chars_of, string_of_range};

verus! {

/// One data row: the date, then a cell per column, `None` where nothing is
/// written.
pub struct GridRow {
    pub date: String,
    pub cells: Vec<Option<String>>,
}

/// A header row and the data rows under it.
pub struct Grid {
    pub header: Vec<String>,
    pub rows: Vec<GridRow>,
}

/// The label of the date column.
pub open spec fn date_title() -> Seq<char> {
    seq!['日', '期']
}

/// The header row: the date column's label, then the columns in order.
pub open spec fn header_of(columns: Seq<Seq<char>>) -> Seq<Seq<char>> {
    seq![date_title()] + columns
}

/// The value under the first occurrence of `k`, if any.
pub open spec fn lookup(rs: Seq<(Seq<char>, Seq<char>)>, k: Seq<char>) -> Option<Seq<char>>
    decreases rs.len(),
{
    if rs.len() == 0 {
        None
    } else if rs[0].0 == k {
        Some(rs[0].1)
    } else {
        lookup(rs.drop_first(), k)
    }
}

/// The value that a record places in the column `col`: the one under
/// `col`, else the one under the normal form of `col`, else none.
pub open spec fn cell_of(rs: Seq<(Seq<char>, Seq<char>)>, col: Seq<char>) -> Option<Seq<char>> {
    match lookup(rs, col) {
        Some(v) => Some(v),
        None => lookup(rs, normalize(col)),
    }
}

pub open spec fn cell_texts(cells: Seq<Option<String>>) -> Seq<Option<Seq<char>>> {
    cells.map_values(
        |c: Option<String>|
            match c {
                Some(s) => Some(s@),
                None => None,
            },
    )
}

/// The row that a record gives under `columns`.
pub open spec fn row_matches(row: GridRow, rec: RecordModel, columns: Seq<Seq<char>>) -> bool {
    &&& row.date@ == rec.date
    &&& cell_texts(row.cells@).len() == columns.len()
    &&& forall|j: int|
        0 <= j < columns.len() ==> #[trigger] cell_texts(row.cells@)[j] == cell_of(
            rec.readings,
            columns[j],
        )
}

/// The value under the first occurrence of `k` in `rs`.
fn find_value(rs: &Vec<Reading>, k: &String) -> (r: Option<String>)
    ensures
        match r {
            Some(v) => lookup(pairs_of(rs@), k@) == Some(v@),
            None => lookup(pairs_of(rs@), k@) is None,
        },
{
    let ghost ps = pairs_of(rs@);
    let mut i: usize = 0;
    assert(ps.skip(0) =~= ps);
    while i < rs.len()
        invariant
            i <= rs@.len(),
            ps == pairs_of(rs@),
            lookup(ps, k@) == lookup(ps.skip(i as int), k@),
        decreases rs@.len() - i,
    {
        assert(ps.skip(i as int)[0] == ps[i as int]);
        if rs[i].label == *k {
            return Some(rs[i].value.clone());
        }
        assert(ps.skip(i as int).drop_first() =~= ps.skip(i + 1));
        i = i + 1;
    }
    None
}

/// The normal form of a label held as a `String`.
fn normalized(s: &String) -> (r: String)
    ensures
        r@ == normalize(s@),
{
    let cs = chars_of(s.as_str());
    let mut out: Vec<char> = Vec::new();
    push_normalized(&mut out, &cs, 0, cs.len());
    assert(cs@.subrange(0, cs@.len() as int) =~= cs@);
    let r = string_of_range(&out, 0, out.len());
    assert(r@ =~= out@);
    r
}

/// The cell that a record's readings place in column `col`.
fn cell_value(rs: &Vec<Reading>, col: &String) -> (r: Option<String>)
    ensures
        match r {
            Some(v) => cell_of(pairs_of(rs@), col@) == Some(v@),
            None => cell_of(pairs_of(rs@), col@) is None,
        },
{
    match find_value(rs, col) {
        Some(v) => Some(v),
        None => find_value(rs, &normalized(col)),
    }
}

/// The grid of `records` under `columns`: the header is the date column's
/// label followed by `columns`; row `i` holds the date of `records[i]` and,
/// in column `j`, the value that record has under `columns[j]` (or under
/// its normal form), or no value at all.
pub fn build_grid(records: &Vec<DailyRecord>, columns: &Vec<String>) -> (r: Grid)
    ensures
        texts_of(r.header@) == header_of(texts_of(columns@)),
        r.rows@.len() == records@.len(),
        forall|i: int|
            0 <= i < records@.len() ==> row_matches(
                #[trigger] r.rows@[i],
                models_of(records@)[i],
                texts_of(columns@),
            ),
{
    let ghost cols = texts_of(columns@);
    let mut header: Vec<String> = Vec::new();
    let title = vec!['日', '期'];
    let t = string_of_range(&title, 0, 2);
    assert(t@ =~= date_title());
    header.push(t);
    let mut j: usize = 0;
    while j < columns.len()
        invariant
            j <= columns@.len(),
            cols == texts_of(columns@),
            texts_of(header@) == header_of(cols.take(j as int)),
        decreases columns@.len() - j,
    {
        let ghost prev = header@;
        let col = columns[j].clone();
        assert(col@ == cols[j as int]);
        header.push(col);
        assert(cols.take(j + 1) =~= cols.take(j as int).push(cols[j as int]));
        assert(texts_of(header@) =~= texts_of(prev).push(col@));
        assert(texts_of(header@) =~= header_of(cols.take(j + 1)));
        j = j + 1;
    }
    assert(cols.take(j as int) =~= cols);
    let mut rows: Vec<GridRow> = Vec::new();
    let mut i: usize = 0;
    while i < records.len()
        invariant
            i <= records@.len(),
            cols == texts_of(columns@),
            rows@.len() == i,
            forall|k: int|
                0 <= k < i ==> row_matches(#[trigger] rows@[k], models_of(records@)[k], cols),
        decreases records@.len() - i,
    {
        let rec = &records[i];
        let mut cells: Vec<Option<String>> = Vec::new();
        let mut c: usize = 0;
        while c < columns.len()
            invariant
                c <= columns@.len(),
                i < records@.len(),
                cols == texts_of(columns@),
                rec == records@[i as int],
                cell_texts(cells@).len() == c,
                forall|m: int|
                    0 <= m < c ==> #[trigger] cell_texts(cells@)[m] == cell_of(
                        pairs_of(rec.readings@),
                        cols[m],
                    ),
            decreases columns@.len() - c,
        {
            let v = cell_value(&rec.readings, &columns[c]);
            let ghost before = cells@;
            assert(columns@[c as int]@ == cols[c as int]);
            cells.push(v);
            assert(cell_texts(cells@)[c as int] == cell_of(pairs_of(rec.readings@), cols[c as int]));
            assert forall|m: int| 0 <= m < c + 1 implies #[trigger] cell_texts(cells@)[m]
                == cell_of(pairs_of(rec.readings@), cols[m]) by {
                if m < c {
                    assert(cells@[m] == before[m]);
                    assert(cell_texts(cells@)[m] == cell_texts(before)[m]);
                }
            }
            c = c + 1;
        }
        let row = GridRow { date: rec.date.clone(), cells };
        assert(row_matches(row, models_of(records@)[i as int], cols));
        let ghost prev = rows@;
        rows.push(row);
        assert forall|k: int| 0 <= k < i + 1 implies row_matches(
            #[trigger] rows@[k],
            models_of(records@)[k],
            cols,
        ) by {
            if k < i {
                assert(rows@[k] == prev[k]);
            }
        }
        i = i + 1;
    }
    Grid { header, rows }
}

/// Reading back the header that a grid gets under `columns`, and taking
/// its cells after the date column, gives `columns` again.
pub proof fn lemma_header_round_trip(columns: Seq<Seq<char>>)
    ensures
        header_of(columns).len() == columns.len() + 1,
        header_of(columns)[0] == date_title(),
        header_of(columns).subrange(1, columns.len() + 1int) == columns,
{
    assert(header_of(columns).subrange(1, columns.len() + 1int) =~= columns);
}

} // verus!
