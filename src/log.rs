//! The log parser: a single pass over the lines that gathers, per date
//! line, the readings that follow it.
use vstd::prelude::*;
use crate::line::{classify, classify_line, Line, LineKind};
use crate::text::chars_of;

verus! {

/// One reading: a normalized time label and the text of its number.
pub struct Reading {
    pub label: String,
    pub value: String,
}

/// The readings gathered under one date line.
pub struct DailyRecord {
    pub date: String,
    pub readings: Vec<Reading>,
}

/// A record as values: its date and its `(label, value)` pairs, in the
/// order in which each label first appeared.
pub struct RecordModel {
    pub date: Seq<char>,
    pub readings: Seq<(Seq<char>, Seq<char>)>,
}

pub open spec fn pairs_of(rs: Seq<Reading>) -> Seq<(Seq<char>, Seq<char>)> {
    rs.map_values(|r: Reading| (r.label@, r.value@))
}

impl View for DailyRecord {
    type V = RecordModel;

    open spec fn view(&self) -> RecordModel {
        RecordModel { date: self.date@, readings: pairs_of(self.readings@) }
    }
}

pub open spec fn models_of(v: Seq<DailyRecord>) -> Seq<RecordModel> {
    v.map_values(|r: DailyRecord| r@)
}

/// `rs` holds `k` as a label, at `i`.
pub open spec fn has_key_at(rs: Seq<(Seq<char>, Seq<char>)>, k: Seq<char>, i: int) -> bool {
    0 <= i < rs.len() && rs[i].0 == k
}

/// No label occurs twice.
pub open spec fn keys_unique(rs: Seq<(Seq<char>, Seq<char>)>) -> bool {
    forall|i: int, j: int|
        0 <= i < rs.len() && 0 <= j < rs.len() && i != j ==> #[trigger] rs[i].0 != #[trigger] rs[j].0
}

/// `rs` with `v` under `k`: an earlier value under `k` is replaced in its
/// place, a new label goes to the end.
pub open spec fn put(rs: Seq<(Seq<char>, Seq<char>)>, k: Seq<char>, v: Seq<char>) -> Seq<
    (Seq<char>, Seq<char>),
> {
    if exists|i: int| has_key_at(rs, k, i) {
        rs.update(choose|i: int| has_key_at(rs, k, i), (k, v))
    } else {
        rs.push((k, v))
    }
}

/// Where the scan stands: the records closed so far, and the one that the
/// last date line opened, if any.
pub struct ScanState {
    pub done: Seq<RecordModel>,
    pub open: Option<RecordModel>,
}

pub open spec fn initial() -> ScanState {
    ScanState { done: seq![], open: None }
}

/// The records closed so far, with the open one added where it holds a
/// reading.
pub open spec fn flushed(st: ScanState) -> Seq<RecordModel> {
    match st.open {
        Some(r) => if r.readings.len() > 0 {
            st.done.push(r)
        } else {
            st.done
        },
        None => st.done,
    }
}

/// The scan after one more line.
pub open spec fn step(st: ScanState, line: Seq<char>) -> ScanState {
    match classify(line) {
        LineKind::Date { date } => ScanState {
            done: flushed(st),
            open: Some(RecordModel { date, readings: seq![] }),
        },
        LineKind::Reading { label, value } => match st.open {
            Some(r) => ScanState {
                done: st.done,
                open: Some(RecordModel { date: r.date, readings: put(r.readings, label, value) }),
            },
            None => st,
        },
        LineKind::Other => st,
    }
}

/// The scan from `st` over `lines`, in order.
pub open spec fn run(st: ScanState, lines: Seq<Seq<char>>) -> ScanState
    decreases lines.len(),
{
    if lines.len() == 0 {
        st
    } else {
        step(run(st, lines.drop_last()), lines.last())
    }
}

/// The records of a log given as lines.
pub open spec fn records_of_lines(lines: Seq<Seq<char>>) -> Seq<RecordModel> {
    flushed(run(initial(), lines))
}

/// Index of the first `'\n'` at or after `i` (or the length).
pub open spec fn next_newline(s: Seq<char>, i: int) -> int
    decreases s.len() - i,
{
    if 0 <= i < s.len() && s[i] != '\n' {
        next_newline(s, i + 1)
    } else {
        i
    }
}

/// `s` cut at each `'\n'`.
pub open spec fn split_lines(s: Seq<char>) -> Seq<Seq<char>>
    decreases s.len(),
{
    let i = next_newline(s, 0);
    if 0 <= i < s.len() {
        seq![s.take(i)] + split_lines(s.skip(i + 1))
    } else {
        seq![s]
    }
}

/// The records of a log text.
pub open spec fn records_of_text(s: Seq<char>) -> Seq<RecordModel> {
    records_of_lines(split_lines(s))
}

pub open spec fn open_model(o: Option<DailyRecord>) -> Option<RecordModel> {
    match o {
        Some(r) => Some(r@),
        None => None,
    }
}

/// Sets `value` under `label`, in place where the label is present,
/// at the end where it is not.
fn put_reading(rs: &mut Vec<Reading>, label: String, value: String)
    requires
        keys_unique(pairs_of(old(rs)@)),
    ensures
        pairs_of(final(rs)@) == put(pairs_of(old(rs)@), label@, value@),
        keys_unique(pairs_of(final(rs)@)),
{
    let ghost ps = pairs_of(rs@);
    let mut i: usize = 0;
    while i < rs.len()
        invariant
            i <= rs@.len(),
            rs@ == old(rs)@,
            ps == pairs_of(rs@),
            keys_unique(ps),
            forall|j: int| 0 <= j < i ==> ps[j].0 != label@,
        decreases rs@.len() - i,
    {
        if rs[i].label == label {
            assert(ps[i as int].0 == label@);
            assert(has_key_at(ps, label@, i as int));
            proof {
                let c = choose|j: int| has_key_at(ps, label@, j);
                assert(has_key_at(ps, label@, c));
                if c != i as int {
                    assert(ps[c].0 != ps[i as int].0);
                }
            }
            rs.set(i, Reading { label, value });
            assert(pairs_of(rs@) =~= put(ps, label@, value@));
            assert(keys_unique(pairs_of(rs@))) by {
                let qs = pairs_of(rs@);
                assert forall|a: int, b: int|
                    0 <= a < qs.len() && 0 <= b < qs.len() && a != b implies #[trigger] qs[a].0
                    != #[trigger] qs[b].0 by {
                    assert(qs[a].0 == ps[a].0);
                    assert(qs[b].0 == ps[b].0);
                }
            }
            return;
        }
        i = i + 1;
    }
    assert(!exists|j: int| has_key_at(ps, label@, j));
    rs.push(Reading { label, value });
    assert(pairs_of(rs@) =~= put(ps, label@, value@));
}

/// Index of the first `'\n'` in `s` at or after `start` (or the length).
fn find_newline(s: &Vec<char>, start: usize) -> (r: usize)
    requires
        start <= s@.len(),
    ensures
        start <= r <= s@.len(),
        r - start == next_newline(s@.skip(start as int), 0),
{
    let ghost t = s@.skip(start as int);
    let mut j: usize = start;
    while j < s.len() && s[j] != '\n'
        invariant
            start <= j <= s@.len(),
            t == s@.skip(start as int),
            next_newline(t, 0) == next_newline(t, j - start),
        decreases s@.len() - j,
    {
        j = j + 1;
    }
    j
}

/// The readings of a log text, one record per date line that at least one
/// reading line follows before the next date line or the end; records in
/// the order of their date lines. A reading line with no date line before
/// it, and any line of neither shape, is passed over.
pub fn parse_log(text: &str) -> (r: Vec<DailyRecord>)
    ensures
        models_of(r@) == records_of_text(text@),
        forall|i: int|
            0 <= i < r@.len() ==> #[trigger] r@[i].readings@.len() > 0 && keys_unique(
                pairs_of(r@[i].readings@),
            ),
{
    let cs = chars_of(text);
    let mut done: Vec<DailyRecord> = Vec::new();
    let mut open: Option<DailyRecord> = None;
    let mut start: usize = 0;
    let ghost mut seen: Seq<Seq<char>> = seq![];
    assert(cs@.skip(0) =~= cs@);
    loop
        invariant_except_break
            split_lines(cs@) == seen + split_lines(cs@.skip(start as int)),
        invariant
            start <= cs@.len(),
            cs@ == text@,
            models_of(done@) == run(initial(), seen).done,
            open_model(open) == run(initial(), seen).open,
            open matches Some(o) ==> keys_unique(pairs_of(o.readings@)),
            forall|i: int|
                0 <= i < done@.len() ==> #[trigger] done@[i].readings@.len() > 0 && keys_unique(
                    pairs_of(done@[i].readings@),
                ),
        ensures
            split_lines(cs@) == seen,
            models_of(done@) == run(initial(), seen).done,
            open_model(open) == run(initial(), seen).open,
        decreases cs@.len() - start,
    {
        let ghost rest = cs@.skip(start as int);
        let e = find_newline(&cs, start);
        let mut line: Vec<char> = Vec::new();
        crate::label::push_range(&mut line, &cs, start, e);
        assert(line@ =~= rest.take(e - start));
        let ghost st = run(initial(), seen);
        proof {
            let next = seen.push(line@);
            assert(next.drop_last() =~= seen);
            assert(run(initial(), next) == step(st, line@));
        }
        match classify_line(&line) {
            Line::Date(d) => {
                match open {
                    Some(o) => {
                        if o.readings.len() > 0 {
                            done.push(o);
                        }
                    },
                    None => {},
                }
                open = Some(DailyRecord { date: d, readings: Vec::new() });
                assert(models_of(done@) =~= step(st, line@).done);
                assert(pairs_of(Seq::<Reading>::empty()) =~= seq![]);
            },
            Line::Reading(l, v) => {
                match open {
                    Some(o) => {
                        let mut o = o;
                        put_reading(&mut o.readings, l, v);
                        open = Some(o);
                    },
                    None => {
                        open = None;
                    },
                }
            },
            Line::Other => {},
        }
        proof {
            seen = seen.push(line@);
        }
        if e == cs.len() {
            assert(rest.take(e - start) =~= rest);
            assert(split_lines(rest) == seq![rest]);
            break;
        }
        assert(rest.skip(e - start + 1) =~= cs@.skip(e + 1));
        assert(split_lines(rest) == seq![rest.take(e - start)] + split_lines(cs@.skip(e + 1)));
        assert(split_lines(cs@) =~= seen + split_lines(cs@.skip(e + 1)));
        start = e + 1;
    }
    match open {
        Some(o) => {
            if o.readings.len() > 0 {
                done.push(o);
            }
        },
        None => {},
    }
    assert(models_of(done@) =~= records_of_text(text@));
    done
}

/// Scanning `a` then `b` is scanning `a + b`.
pub proof fn lemma_run_concat(st: ScanState, a: Seq<Seq<char>>, b: Seq<Seq<char>>)
    ensures
        run(st, a + b) == run(run(st, a), b),
    decreases b.len(),
{
    if b.len() == 0 {
        assert(a + b =~= a);
    } else {
        assert((a + b).drop_last() =~= a + b.drop_last());
        assert((a + b).last() == b.last());
        lemma_run_concat(st, a, b.drop_last());
    }
}

pub open spec fn is_date_line(l: Seq<char>) -> bool {
    classify(l) is Date
}

pub open spec fn is_reading_line(l: Seq<char>) -> bool {
    classify(l) is Reading
}

proof fn lemma_no_dates_from_initial(pre: Seq<Seq<char>>)
    requires
        forall|i: int| 0 <= i < pre.len() ==> !is_date_line(#[trigger] pre[i]),
    ensures
        run(initial(), pre) == initial(),
    decreases pre.len(),
{
    if pre.len() > 0 {
        assert(!is_date_line(pre[pre.len() - 1]));
        lemma_no_dates_from_initial(pre.drop_last());
    }
}

/// Lines ahead of the first date line yield nothing: reading lines there
/// have no date to belong to and are dropped.
pub proof fn lemma_readings_before_any_date_dropped(pre: Seq<Seq<char>>, rest: Seq<Seq<char>>)
    requires
        forall|i: int| 0 <= i < pre.len() ==> !is_date_line(#[trigger] pre[i]),
    ensures
        records_of_lines(pre + rest) == records_of_lines(rest),
{
    lemma_run_concat(initial(), pre, rest);
    lemma_no_dates_from_initial(pre);
}

/// A date line directly followed by another date line yields no record:
/// the log reads as if the first were absent.
pub proof fn lemma_empty_date_dropped(
    pre: Seq<Seq<char>>,
    d1: Seq<char>,
    d2: Seq<char>,
    post: Seq<Seq<char>>,
)
    requires
        is_date_line(d1),
        is_date_line(d2),
    ensures
        records_of_lines(pre + seq![d1, d2] + post) == records_of_lines(pre + seq![d2] + post),
{
    let s0 = run(initial(), pre);
    lemma_run_concat(initial(), pre + seq![d1, d2], post);
    lemma_run_concat(initial(), pre + seq![d2], post);
    lemma_run_concat(initial(), pre, seq![d1, d2]);
    lemma_run_concat(initial(), pre, seq![d2]);
    assert(seq![d1, d2].drop_last() =~= seq![d1]);
    assert(seq![d1].drop_last() =~= Seq::<Seq<char>>::empty());
    assert(seq![d2].drop_last() =~= Seq::<Seq<char>>::empty());
    assert(run(s0, Seq::<Seq<char>>::empty()) == s0);
    assert(seq![d1].last() == d1);
    assert(seq![d2].last() == d2);
    assert(seq![d1, d2].last() == d2);
    assert(run(s0, seq![d1]) == step(s0, d1));
    assert(run(s0, seq![d1, d2]) == step(step(s0, d1), d2));
    assert(run(s0, seq![d2]) == step(s0, d2));
}

/// Line `i` is a date line, and a reading line follows it before the next
/// date line or the end.
pub open spec fn date_with_readings(lines: Seq<Seq<char>>, i: int) -> bool {
    &&& 0 <= i < lines.len()
    &&& is_date_line(lines[i])
    &&& exists|j: int|
        i < j < lines.len() && is_reading_line(#[trigger] lines[j]) && forall|k: int|
            i < k < j ==> !is_date_line(#[trigger] lines[k])
}

/// How many of the first `n` lines are dates with readings.
pub open spec fn count_dates_with_readings(lines: Seq<Seq<char>>, n: int) -> nat
    decreases n,
{
    if n <= 0 {
        0
    } else {
        count_dates_with_readings(lines, n - 1) + if date_with_readings(lines, n - 1) {
            1nat
        } else {
            0nat
        }
    }
}

pub open spec fn has_reading(lines: Seq<Seq<char>>) -> bool {
    exists|j: int| 0 <= j < lines.len() && is_reading_line(#[trigger] lines[j])
}

pub open spec fn no_dates(lines: Seq<Seq<char>>) -> bool {
    forall|i: int| 0 <= i < lines.len() ==> !is_date_line(#[trigger] lines[i])
}

/// Index of the last date line, or -1.
pub open spec fn last_date(lines: Seq<Seq<char>>) -> int
    decreases lines.len(),
{
    if lines.len() == 0 {
        -1
    } else if is_date_line(lines.last()) {
        lines.len() - 1
    } else {
        last_date(lines.drop_last())
    }
}

proof fn lemma_last_date(lines: Seq<Seq<char>>)
    ensures
        -1 <= last_date(lines) < lines.len(),
        last_date(lines) >= 0 ==> is_date_line(lines[last_date(lines)]),
        forall|k: int| last_date(lines) < k < lines.len() ==> !is_date_line(#[trigger] lines[k]),
    decreases lines.len(),
{
    if lines.len() > 0 && !is_date_line(lines.last()) {
        lemma_last_date(lines.drop_last());
        assert forall|k: int| last_date(lines) < k < lines.len() implies !is_date_line(
            #[trigger] lines[k],
        ) by {
            if k < lines.len() - 1 {
                assert(lines.drop_last()[k] == lines[k]);
            }
        }
    }
}

/// Over lines without dates, an open record gains a reading exactly when
/// one of them is a reading line; nothing closes.
proof fn lemma_run_without_dates(st: ScanState, b: Seq<Seq<char>>)
    requires
        no_dates(b),
        st.open is Some,
    ensures
        run(st, b).done == st.done,
        run(st, b).open is Some,
        run(st, b).open->0.readings.len() > 0 <==> (st.open->0.readings.len() > 0 || has_reading(
            b,
        )),
    decreases b.len(),
{
    if b.len() > 0 {
        let c = b.drop_last();
        assert forall|i: int| 0 <= i < c.len() implies !is_date_line(#[trigger] c[i]) by {
            assert(c[i] == b[i]);
        }
        lemma_run_without_dates(st, c);
        assert(!is_date_line(b[b.len() - 1]));
        let r = run(st, c).open->0;
        if has_reading(b) && !has_reading(c) && st.open->0.readings.len() == 0 {
            let j = choose|j: int| 0 <= j < b.len() && is_reading_line(#[trigger] b[j]);
            if j < c.len() {
                assert(c[j] == b[j]);
            }
            assert(j == b.len() - 1);
        }
        if has_reading(c) {
            let j = choose|j: int| 0 <= j < c.len() && is_reading_line(#[trigger] c[j]);
            assert(b[j] == c[j]);
        }
        match classify(b.last()) {
            LineKind::Reading { label, value } => {
                let rs = r.readings;
                if exists|i: int| has_key_at(rs, label, i) {
                    assert(put(rs, label, value).len() == rs.len());
                    let i = choose|i: int| has_key_at(rs, label, i);
                    assert(rs.len() > 0);
                }
                assert(put(rs, label, value).len() > 0);
                assert(is_reading_line(b[b.len() - 1]));
            },
            _ => {},
        }
    }
}

proof fn lemma_count_no_dates(lines: Seq<Seq<char>>, n: int)
    requires
        no_dates(lines),
        n <= lines.len(),
    ensures
        count_dates_with_readings(lines, n) == 0,
    decreases n,
{
    if n > 0 {
        lemma_count_no_dates(lines, n - 1);
    }
}

proof fn lemma_count_same_prefix(x: Seq<Seq<char>>, y: Seq<Seq<char>>, n: int)
    requires
        forall|i: int| 0 <= i < n ==> date_with_readings(x, i) == date_with_readings(y, i),
    ensures
        count_dates_with_readings(x, n) == count_dates_with_readings(y, n),
    decreases n,
{
    if n > 0 {
        lemma_count_same_prefix(x, y, n - 1);
    }
}

proof fn lemma_count_flat(lines: Seq<Seq<char>>, m: int, n: int)
    requires
        0 <= m <= n,
        forall|i: int| m <= i < n ==> !date_with_readings(lines, i),
    ensures
        count_dates_with_readings(lines, n) == count_dates_with_readings(lines, m),
    decreases n - m,
{
    if n > m {
        lemma_count_flat(lines, m, n - 1);
    }
}

/// One record comes out for each date line that at least one reading line
/// follows before the next date line or the end, and no other.
pub proof fn lemma_record_count(lines: Seq<Seq<char>>)
    ensures
        records_of_lines(lines).len() == count_dates_with_readings(lines, lines.len() as int),
    decreases lines.len(),
{
    lemma_last_date(lines);
    let d = last_date(lines);
    if d < 0 {
        lemma_no_dates_from_initial(lines);
        lemma_count_no_dates(lines, lines.len() as int);
    } else {
        let a = lines.take(d);
        let b = lines.skip(d + 1);
        let ld = lines[d];
        assert(lines =~= a + seq![ld] + b);
        lemma_record_count(a);
        lemma_run_concat(initial(), a + seq![ld], b);
        lemma_run_concat(initial(), a, seq![ld]);
        assert(seq![ld].drop_last() =~= Seq::<Seq<char>>::empty());
        assert(run(run(initial(), a), Seq::<Seq<char>>::empty()) == run(initial(), a));
        assert(seq![ld].last() == ld);
        assert(run(run(initial(), a), seq![ld]) == step(run(initial(), a), ld));
        let s1 = step(run(initial(), a), ld);
        assert(s1.done == records_of_lines(a));
        assert forall|i: int| 0 <= i < b.len() implies !is_date_line(#[trigger] b[i]) by {
            assert(b[i] == lines[d + 1 + i]);
        }
        lemma_run_without_dates(s1, b);
        // the count side
        assert forall|i: int| 0 <= i < d implies date_with_readings(lines, i)
            == date_with_readings(a, i) by {
            assert(a[i] == lines[i]);
            if date_with_readings(lines, i) {
                let j = choose|j: int|
                    i < j < lines.len() && is_reading_line(#[trigger] lines[j]) && forall|k: int|
                        i < k < j ==> !is_date_line(#[trigger] lines[k]);
                if j > d {
                    assert(!is_date_line(lines[d]));
                }
                assert(j != d);
                assert(a[j] == lines[j]);
                assert forall|k: int| i < k < j implies !is_date_line(#[trigger] a[k]) by {
                    assert(a[k] == lines[k]);
                }
            }
            if date_with_readings(a, i) {
                let j = choose|j: int|
                    i < j < a.len() && is_reading_line(#[trigger] a[j]) && forall|k: int|
                        i < k < j ==> !is_date_line(#[trigger] a[k]);
                assert(a[j] == lines[j]);
                assert forall|k: int| i < k < j implies !is_date_line(#[trigger] lines[k]) by {
                    assert(a[k] == lines[k]);
                }
            }
        }
        lemma_count_same_prefix(lines, a, d);
        assert(date_with_readings(lines, d) == has_reading(b)) by {
            if date_with_readings(lines, d) {
                let j = choose|j: int|
                    d < j < lines.len() && is_reading_line(#[trigger] lines[j]) && forall|k: int|
                        d < k < j ==> !is_date_line(#[trigger] lines[k]);
                assert(b[j - d - 1] == lines[j]);
            }
            if has_reading(b) {
                let j = choose|j: int| 0 <= j < b.len() && is_reading_line(#[trigger] b[j]);
                assert(b[j] == lines[d + 1 + j]);
                assert(is_reading_line(lines[d + 1 + j]));
            }
        }
        lemma_count_flat(lines, d + 1, lines.len() as int);
        assert(count_dates_with_readings(lines, d + 1) == count_dates_with_readings(lines, d) + if has_reading(b) { 1nat } else { 0nat });
    }
}

} // verus!
