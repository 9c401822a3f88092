//! Time labels: the canonical zero-padded `HH:MM` form that joins log
//! readings to template columns.
use vstd::prelude::*;
use crate::text::{
    chars_of, is_white, lemma_back_white_bounds, lemma_skip_white_bounds, string_of_range, trim,
    trim_end, trim_start, trim_range, skip_white, back_white,
};

verus! {

/// `s` right-aligned in a field of two characters filled with `'0'`
/// (longer values are kept whole).
pub open spec fn pad2(s: Seq<char>) -> Seq<char> {
    if s.len() == 0 {
        seq!['0', '0']
    } else if s.len() == 1 {
        seq!['0'] + s
    } else {
        s
    }
}

/// `s` holds exactly one `':'`, at index `p`.
pub open spec fn single_colon_at(s: Seq<char>, p: int) -> bool {
    &&& 0 <= p < s.len()
    &&& s[p] == ':'
    &&& forall|q: int| 0 <= q < s.len() && q != p ==> #[trigger] s[q] != ':'
}

/// The normal form of a time label: where `s` splits on `':'` into exactly
/// two parts, each part trimmed and padded to two digits with `'0'` on the
/// left, joined by `':'`; any other `s` unchanged.
pub open spec fn normalize(s: Seq<char>) -> Seq<char> {
    if exists|p: int| single_colon_at(s, p) {
        let p = choose|p: int| single_colon_at(s, p);
        pad2(trim(s.take(p))) + seq![':'] + pad2(trim(s.skip(p + 1)))
    } else {
        s
    }
}

/// Appends `s[lo..hi]` to `out`.
pub fn push_range(out: &mut Vec<char>, s: &Vec<char>, lo: usize, hi: usize)
    requires
        lo <= hi <= s@.len(),
    ensures
        final(out)@ == old(out)@ + s@.subrange(lo as int, hi as int),
{
    let mut i: usize = lo;
    while i < hi
        invariant
            lo <= i <= hi <= s@.len(),
            out@ == old(out)@ + s@.subrange(lo as int, i as int),
        decreases hi - i,
    {
        out.push(s[i]);
        assert(out@ =~= old(out)@ + s@.subrange(lo as int, i + 1));
        i = i + 1;
    }
}

/// Appends `s[lo..hi]` padded to two characters with `'0'`.
fn push_padded(out: &mut Vec<char>, s: &Vec<char>, lo: usize, hi: usize)
    requires
        lo <= hi <= s@.len(),
    ensures
        final(out)@ == old(out)@ + pad2(s@.subrange(lo as int, hi as int)),
{
    let ghost t = s@.subrange(lo as int, hi as int);
    if hi - lo == 0 {
        out.push('0');
        out.push('0');
        assert(out@ =~= old(out)@ + pad2(t));
    } else if hi - lo == 1 {
        out.push('0');
        out.push(s[lo]);
        assert(out@ =~= old(out)@ + pad2(t));
    } else {
        push_range(out, s, lo, hi);
    }
}

/// Index of the first `':'` in `s[lo..hi]`, or `hi`.
fn find_colon(s: &Vec<char>, lo: usize, hi: usize) -> (r: usize)
    requires
        lo <= hi <= s@.len(),
    ensures
        lo <= r <= hi,
        r < hi ==> s@[r as int] == ':',
        forall|q: int| lo <= q < r ==> s@[q] != ':',
{
    let mut i: usize = lo;
    while i < hi && s[i] != ':'
        invariant
            lo <= i <= hi <= s@.len(),
            forall|q: int| lo <= q < i ==> s@[q] != ':',
        decreases hi - i,
    {
        i = i + 1;
    }
    i
}

/// Appends the normal form of the label `s[lo..hi]` to `out`.
pub fn push_normalized(out: &mut Vec<char>, s: &Vec<char>, lo: usize, hi: usize)
    requires
        lo <= hi <= s@.len(),
    ensures
        final(out)@ == old(out)@ + normalize(s@.subrange(lo as int, hi as int)),
{
    let ghost t = s@.subrange(lo as int, hi as int);
    let p = find_colon(s, lo, hi);
    if p == hi {
        assert(!exists|q: int| single_colon_at(t, q)) by {
            if exists|q: int| single_colon_at(t, q) {
                let q = choose|q: int| single_colon_at(t, q);
                assert(s@[lo + q] == ':');
            }
        }
        push_range(out, s, lo, hi);
        return;
    }
    let p2 = find_colon(s, p + 1, hi);
    if p2 < hi {
        assert(!exists|q: int| single_colon_at(t, q)) by {
            if exists|q: int| single_colon_at(t, q) {
                let q = choose|q: int| single_colon_at(t, q);
                assert(t[p - lo] == ':');
                assert(t[p2 - lo] == ':');
            }
        }
        push_range(out, s, lo, hi);
        return;
    }
    let ghost pl = p - lo;
    assert(single_colon_at(t, pl)) by {
        assert forall|q: int| 0 <= q < t.len() && q != pl implies #[trigger] t[q] != ':' by {
            assert(t[q] == s@[lo + q]);
        }
    }
    let ghost c = choose|q: int| single_colon_at(t, q);
    assert(c == pl);
    let (a, b) = trim_range(s, lo, p);
    let (d, e) = trim_range(s, p + 1, hi);
    assert(t.take(pl) == s@.subrange(lo as int, p as int));
    assert(t.skip(pl + 1) == s@.subrange(p + 1, hi as int));
    push_padded(out, s, a, b);
    out.push(':');
    push_padded(out, s, d, e);
    assert(out@ =~= old(out)@ + normalize(t));
}

/// The normal form of a time label: `"1:00"` and `"01:00"` both give
/// `"01:00"`; a value that does not split into exactly two parts on `':'`
/// comes back unchanged.
pub fn normalize_time(time_str: &str) -> (r: String)
    ensures
        r@ == normalize(time_str@),
{
    let cs = chars_of(time_str);
    let mut out: Vec<char> = Vec::new();
    push_normalized(&mut out, &cs, 0, cs.len());
    assert(cs@.subrange(0, cs@.len() as int) =~= cs@);
    assert(out@ =~= normalize(time_str@));
    string_of_range(&out, 0, out.len())
}

/// A sequence whose ends are not whitespace is its own trim.
pub proof fn lemma_trim_of_solid(t: Seq<char>)
    requires
        t.len() == 0 || (!is_white(t[0]) && !is_white(t.last())),
    ensures
        trim(t) == t,
{
    if t.len() > 0 {
        assert(skip_white(t, 0) == 0);
        assert(trim_start(t) =~= t);
        assert(back_white(t, t.len() as int) == t.len());
    } else {
        assert(trim_start(t) =~= t);
    }
    assert(trim_end(t) =~= t);
}

/// What `trim` leaves has no whitespace at either end, and holds no
/// character that `s` does not hold.
pub proof fn lemma_trim_solid(s: Seq<char>)
    ensures
        trim(s).len() == 0 || (!is_white(trim(s)[0]) && !is_white(trim(s).last())),
        forall|i: int| 0 <= i < trim(s).len() ==> s.contains(#[trigger] trim(s)[i]),
{
    let a = skip_white(s, 0);
    lemma_skip_white_bounds(s, 0);
    let u = trim_start(s);
    lemma_back_white_bounds(u, u.len() as int);
    let b = back_white(u, u.len() as int);
    assert forall|i: int| 0 <= i < trim(s).len() implies s.contains(#[trigger] trim(s)[i]) by {
        assert(trim(s)[i] == s[a + i]);
    }
}

proof fn lemma_pad2_solid(x: Seq<char>)
    requires
        x.len() == 0 || (!is_white(x[0]) && !is_white(x.last())),
    ensures
        pad2(x).len() >= 2,
        !is_white(pad2(x)[0]) && !is_white(pad2(x).last()),
        pad2(pad2(x)) == pad2(x),
        trim(pad2(x)) == pad2(x),
        forall|i: int| 0 <= i < pad2(x).len() && #[trigger] pad2(x)[i] != '0' ==> x.contains(
            pad2(x)[i],
        ),
{
    let y = pad2(x);
    if x.len() == 1 {
        assert(y[1] == x[0]);
        assert forall|i: int| 0 <= i < y.len() && #[trigger] y[i] != '0' implies x.contains(y[i]) by {
            assert(i == 1);
            assert(y[i] == x[0]);
        }
    }
    lemma_trim_of_solid(y);
}

/// Normalizing a label twice gives what normalizing it once gives.
pub proof fn lemma_normalize_idempotent(s: Seq<char>)
    ensures
        normalize(normalize(s)) == normalize(s),
{
    if exists|p: int| single_colon_at(s, p) {
        let p = choose|p: int| single_colon_at(s, p);
        let h = trim(s.take(p));
        let m = trim(s.skip(p + 1));
        lemma_trim_solid(s.take(p));
        lemma_trim_solid(s.skip(p + 1));
        lemma_pad2_solid(h);
        lemma_pad2_solid(m);
        let ph = pad2(h);
        let pm = pad2(m);
        let n = ph + seq![':'] + pm;
        assert(n == normalize(s));
        let k = ph.len() as int;
        assert forall|q: int| 0 <= q < n.len() && q != k implies #[trigger] n[q] != ':' by {
            if q < k {
                if ph[q] != '0' {
                    assert(h.contains(ph[q]));
                    let i = choose|i: int| 0 <= i < h.len() && h[i] == ph[q];
                    assert(s.take(p).contains(h[i]));
                    let tk = s.take(p);
                    let j = choose|j: int| 0 <= j < tk.len() && #[trigger] tk[j] == h[i];
                    assert(s[j] == tk[j]);
                }
            } else {
                let r = q - k - 1;
                assert(n[q] == pm[r]);
                if pm[r] != '0' {
                    assert(m.contains(pm[r]));
                    let i = choose|i: int| 0 <= i < m.len() && m[i] == pm[r];
                    assert(s.skip(p + 1).contains(m[i]));
                    let sk = s.skip(p + 1);
                    let j = choose|j: int| 0 <= j < sk.len() && #[trigger] sk[j] == m[i];
                    assert(s[p + 1 + j] == sk[j]);
                }
            }
        }
        assert(single_colon_at(n, k));
        let c = choose|c: int| single_colon_at(n, c);
        assert(c == k);
        assert(n.take(k) =~= ph);
        assert(n.skip(k + 1) =~= pm);
    }
}

} // verus!
