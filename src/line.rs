//! The two line shapes of a log: a date line (`日期: 2024-01-01`, with a
//! full-width or ASCII colon) and a reading line (`9:15 10.5`). A line is
//! searched for the leftmost place where a shape starts, date shape first.
use vstd::prelude::*;
use crate::text::{is_white, lemma_skip_white_bounds, skip_white, string_of_range, white};
use crate::label::{normalize, push_normalized};

verus! {

/// A decimal digit, `0` to `9`.
pub open spec fn is_digit(c: char) -> bool {
    '0' <= c && c <= '9'
}

/// `s[i]` exists and is a digit.
pub open spec fn digit_at(s: Seq<char>, i: int) -> bool {
    0 <= i < s.len() && is_digit(s[i])
}

/// `s[i]` exists and is whitespace.
pub open spec fn white_at(s: Seq<char>, i: int) -> bool {
    0 <= i < s.len() && is_white(s[i])
}

/// `s[i]` exists and is `c`.
pub open spec fn char_at(s: Seq<char>, i: int, c: char) -> bool {
    0 <= i < s.len() && s[i] == c
}

/// Index of the first non-digit at or after `i` (or the length).
pub open spec fn skip_digits(s: Seq<char>, i: int) -> int
    decreases s.len() - i,
{
    if 0 <= i < s.len() && is_digit(s[i]) {
        skip_digits(s, i + 1)
    } else {
        i
    }
}

/// `s[q..q + 10]` has the shape `DDDD-DD-DD`.
pub open spec fn date_shape_at(s: Seq<char>, q: int) -> bool {
    &&& digit_at(s, q) && digit_at(s, q + 1) && digit_at(s, q + 2) && digit_at(s, q + 3)
    &&& char_at(s, q + 4, '-')
    &&& digit_at(s, q + 5) && digit_at(s, q + 6)
    &&& char_at(s, q + 7, '-')
    &&& digit_at(s, q + 8) && digit_at(s, q + 9)
}

/// Where the date of a date line starting at `p` begins: after the label,
/// its colon and any whitespace.
pub open spec fn date_begin(s: Seq<char>, p: int) -> int {
    skip_white(s, p + 3)
}

/// A date line's shape starts at `p`: the label `日期`, `：` or `:`, any
/// whitespace, then `DDDD-DD-DD`.
pub open spec fn date_at(s: Seq<char>, p: int) -> bool {
    &&& char_at(s, p, '日') && char_at(s, p + 1, '期')
    &&& (char_at(s, p + 2, '：') || char_at(s, p + 2, ':'))
    &&& date_shape_at(s, date_begin(s, p))
}

/// The leftmost position at or after `p` where the date shape starts.
pub open spec fn first_date(s: Seq<char>, p: int) -> Option<int>
    decreases s.len() - p,
{
    if p < 0 || p >= s.len() {
        None
    } else if date_at(s, p) {
        Some(p)
    } else {
        first_date(s, p + 1)
    }
}

/// Digits of the hour of a reading that starts at `p`: 2 or 1, or 0 where
/// no `H:` or `HH:` starts there.
pub open spec fn hour_len(s: Seq<char>, p: int) -> int {
    if digit_at(s, p) && digit_at(s, p + 1) && char_at(s, p + 2, ':') {
        2
    } else if digit_at(s, p) && char_at(s, p + 1, ':') {
        1
    } else {
        0
    }
}

/// Digits of the minute after the colon at `c`, which whitespace must
/// follow: 2 or 1, or 0 where there is no such minute.
pub open spec fn minute_len(s: Seq<char>, c: int) -> int {
    if digit_at(s, c + 1) && digit_at(s, c + 2) && white_at(s, c + 3) {
        2
    } else if digit_at(s, c + 1) && white_at(s, c + 2) {
        1
    } else {
        0
    }
}

/// One past the time token of a reading that starts at `p`.
pub open spec fn time_end(s: Seq<char>, p: int) -> int {
    p + hour_len(s, p) + 1 + minute_len(s, p + hour_len(s, p))
}

/// Where the number of a reading that starts at `p` begins.
pub open spec fn value_begin(s: Seq<char>, p: int) -> int {
    skip_white(s, time_end(s, p))
}

/// One past the number that begins at `w`: its digits, and a `.` with
/// digits after it where they follow.
pub open spec fn value_end(s: Seq<char>, w: int) -> int {
    let e = skip_digits(s, w);
    if char_at(s, e, '.') && digit_at(s, e + 1) {
        skip_digits(s, e + 1)
    } else {
        e
    }
}

/// A reading's shape starts at `p`: `H:M`, `HH:M`, `H:MM` or `HH:MM`,
/// whitespace, then a number with an optional fraction.
pub open spec fn reading_at(s: Seq<char>, p: int) -> bool {
    &&& hour_len(s, p) > 0
    &&& minute_len(s, p + hour_len(s, p)) > 0
    &&& digit_at(s, value_begin(s, p))
}

/// The leftmost position at or after `p` where the reading shape starts.
pub open spec fn first_reading(s: Seq<char>, p: int) -> Option<int>
    decreases s.len() - p,
{
    if p < 0 || p >= s.len() {
        None
    } else if reading_at(s, p) {
        Some(p)
    } else {
        first_reading(s, p + 1)
    }
}

/// What a line of the log says.
pub enum LineKind {
    /// A date line, with its `DDDD-DD-DD` text.
    Date { date: Seq<char> },
    /// A reading line, with its normalized time label and its number's text.
    Reading { label: Seq<char>, value: Seq<char> },
    /// Any other line.
    Other,
}

/// The meaning of a line: a date line where the date shape occurs in it,
/// else a reading line where the reading shape occurs, else nothing.
pub open spec fn classify(s: Seq<char>) -> LineKind {
    match first_date(s, 0) {
        Some(p) => LineKind::Date {
            date: s.subrange(date_begin(s, p), date_begin(s, p) + 10),
        },
        None => match first_reading(s, 0) {
            Some(p) => LineKind::Reading {
                label: normalize(s.subrange(p, time_end(s, p))),
                value: s.subrange(value_begin(s, p), value_end(s, value_begin(s, p))),
            },
            None => LineKind::Other,
        },
    }
}

/// A classified line, holding the text that the log's rules take from it.
pub enum Line {
    Date(String),
    Reading(String, String),
    Other,
}

impl View for Line {
    type V = LineKind;

    open spec fn view(&self) -> LineKind {
        match self {
            Line::Date(d) => LineKind::Date { date: d@ },
            Line::Reading(l, v) => LineKind::Reading { label: l@, value: v@ },
            Line::Other => LineKind::Other,
        }
    }
}

pub proof fn lemma_skip_digits_bounds(s: Seq<char>, i: int)
    requires
        0 <= i <= s.len(),
    ensures
        i <= skip_digits(s, i) <= s.len(),
    decreases s.len() - i,
{
    if i < s.len() && is_digit(s[i]) {
        lemma_skip_digits_bounds(s, i + 1);
    }
}

fn digit(s: &Vec<char>, i: usize) -> (r: bool)
    ensures
        r == digit_at(s@, i as int),
{
    i < s.len() && '0' <= s[i] && s[i] <= '9'
}

fn space(s: &Vec<char>, i: usize) -> (r: bool)
    ensures
        r == white_at(s@, i as int),
{
    i < s.len() && white(s[i])
}

fn is_char(s: &Vec<char>, i: usize, c: char) -> (r: bool)
    ensures
        r == char_at(s@, i as int, c),
{
    i < s.len() && s[i] == c
}

fn skip_white_from(s: &Vec<char>, i: usize) -> (r: usize)
    requires
        i <= s@.len(),
    ensures
        r == skip_white(s@, i as int),
        i <= r <= s@.len(),
{
    proof {
        lemma_skip_white_bounds(s@, i as int);
    }
    let mut j: usize = i;
    while j < s.len() && white(s[j])
        invariant
            i <= j <= s@.len(),
            skip_white(s@, j as int) == skip_white(s@, i as int),
        decreases s@.len() - j,
    {
        j = j + 1;
    }
    j
}

fn skip_digits_from(s: &Vec<char>, i: usize) -> (r: usize)
    requires
        i <= s@.len(),
    ensures
        r == skip_digits(s@, i as int),
        i <= r <= s@.len(),
{
    proof {
        lemma_skip_digits_bounds(s@, i as int);
    }
    let mut j: usize = i;
    while j < s.len() && '0' <= s[j] && s[j] <= '9'
        invariant
            i <= j <= s@.len(),
            skip_digits(s@, j as int) == skip_digits(s@, i as int),
        decreases s@.len() - j,
    {
        j = j + 1;
    }
    j
}

fn date_shape(s: &Vec<char>, q: usize) -> (r: bool)
    requires
        q <= s@.len(),
    ensures
        r == date_shape_at(s@, q as int),
        r ==> q + 10 <= s@.len(),
{
    let n = s.len();
    if n - q < 10 {
        return false;
    }
    digit(s, q) && digit(s, q + 1) && digit(s, q + 2) && digit(s, q + 3) && is_char(s, q + 4, '-')
        && digit(s, q + 5) && digit(s, q + 6) && is_char(s, q + 7, '-') && digit(s, q + 8)
        && digit(s, q + 9)
}

/// Whether the date shape starts at `p`, and the bounds of its date.
fn date_here(s: &Vec<char>, p: usize) -> (r: Option<(usize, usize)>)
    requires
        p < s@.len(),
    ensures
        r is Some <==> date_at(s@, p as int),
        r matches Some(t) ==> t.0 == date_begin(s@, p as int) && t.1 == t.0 + 10 && t.1
            <= s@.len(),
{
    let n = s.len();
    if n - p < 3 {
        return None;
    }
    if !(s[p] == '日' && s[p + 1] == '期' && (s[p + 2] == '：' || s[p + 2] == ':')) {
        return None;
    }
    let q = skip_white_from(s, p + 3);
    if date_shape(s, q) {
        Some((q, q + 10))
    } else {
        None
    }
}

/// The bounds of the date of the leftmost date shape in `s`.
fn find_date(s: &Vec<char>) -> (r: Option<(usize, usize)>)
    ensures
        match first_date(s@, 0) {
            Some(p) => r matches Some(t) && t.0 == date_begin(s@, p) && t.1 == t.0 + 10 && t.1
                <= s@.len(),
            None => r is None,
        },
{
    let mut p: usize = 0;
    while p < s.len()
        invariant
            p <= s@.len(),
            first_date(s@, 0) == first_date(s@, p as int),
        decreases s@.len() - p,
    {
        match date_here(s, p) {
            Some(t) => {
                return Some(t);
            },
            None => {},
        }
        p = p + 1;
    }
    None
}

fn hour_digits(s: &Vec<char>, p: usize) -> (r: usize)
    requires
        p < s@.len(),
    ensures
        r as int == hour_len(s@, p as int),
        r > 0 ==> p + r < s@.len(),
{
    let n = s.len();
    if n - p > 2 && digit(s, p) && digit(s, p + 1) && s[p + 2] == ':' {
        2
    } else if n - p > 1 && digit(s, p) && s[p + 1] == ':' {
        1
    } else {
        0
    }
}

fn minute_digits(s: &Vec<char>, c: usize) -> (r: usize)
    requires
        c < s@.len(),
    ensures
        r as int == minute_len(s@, c as int),
        r > 0 ==> c + 1 + r < s@.len(),
{
    let n = s.len();
    if n - c > 3 && digit(s, c + 1) && digit(s, c + 2) && space(s, c + 3) {
        2
    } else if n - c > 2 && digit(s, c + 1) && space(s, c + 2) {
        1
    } else {
        0
    }
}

/// Whether the reading shape starts at `p`, with the end of its time token
/// and where its number begins.
fn reading_here(s: &Vec<char>, p: usize) -> (r: Option<(usize, usize)>)
    requires
        p < s@.len(),
    ensures
        r is Some <==> reading_at(s@, p as int),
        r matches Some(t) ==> t.0 == time_end(s@, p as int) && t.1 == value_begin(s@, p as int)
            && p < t.0 <= t.1 < s@.len(),
{
    let n = s.len();
    let h = hour_digits(s, p);
    if h == 0 {
        return None;
    }
    let m = minute_digits(s, p + h);
    if m == 0 {
        return None;
    }
    let te = p + h + 1 + m;
    let w = skip_white_from(s, te);
    if w < n && digit(s, w) {
        Some((te, w))
    } else {
        None
    }
}

/// Where the leftmost reading shape in `s` starts, with the end of its
/// time token and where its number begins.
fn find_reading(s: &Vec<char>) -> (r: Option<(usize, usize, usize)>)
    ensures
        match first_reading(s@, 0) {
            Some(p) => r matches Some(t) && t.0 == p && t.1 == time_end(s@, p) && t.2
                == value_begin(s@, p) && p < t.1 <= t.2 < s@.len(),
            None => r is None,
        },
{
    let mut p: usize = 0;
    while p < s.len()
        invariant
            p <= s@.len(),
            first_reading(s@, 0) == first_reading(s@, p as int),
        decreases s@.len() - p,
    {
        match reading_here(s, p) {
            Some(t) => {
                return Some((p, t.0, t.1));
            },
            None => {},
        }
        p = p + 1;
    }
    None
}

fn number_end(s: &Vec<char>, w: usize) -> (r: usize)
    requires
        w <= s@.len(),
    ensures
        r as int == value_end(s@, w as int),
        w <= r <= s@.len(),
{
    let e = skip_digits_from(s, w);
    if s.len() - e > 1 && s[e] == '.' && digit(s, e + 1) {
        skip_digits_from(s, e + 1)
    } else {
        e
    }
}

/// Classifies one line of a log.
pub fn classify_line(s: &Vec<char>) -> (r: Line)
    ensures
        r@ == classify(s@),
{
    match find_date(s) {
        Some((q, e)) => Line::Date(string_of_range(s, q, e)),
        None => match find_reading(s) {
            Some((p, te, w)) => {
                let mut label: Vec<char> = Vec::new();
                push_normalized(&mut label, s, p, te);
                assert(label@ =~= normalize(s@.subrange(p as int, te as int)));
                let e = number_end(s, w);
                let l = string_of_range(&label, 0, label.len());
                assert(l@ =~= label@);
                Line::Reading(l, string_of_range(s, w, e))
            },
            None => Line::Other,
        },
    }
}

} // verus!
