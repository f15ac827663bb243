//! Admissible series and the lookups by day that the engine makes on them.

use vstd::prelude::*;
use crate::util::{Sample, SPAN_LIMIT, VALUE_LIMIT};

verus! {

/// A series the engine accepts: days strictly ascending, values within
/// `VALUE_LIMIT`, and fewer than `SPAN_LIMIT` days from first to last.
pub open spec fn series_ok(s: Seq<Sample>) -> bool {
    &&& forall|i: int, j: int| 0 <= i < j < s.len() ==> s[i].day < s[j].day
    &&& forall|i: int| 0 <= i < s.len() ==> -(VALUE_LIMIT as int) <= #[trigger] s[i].value <= VALUE_LIMIT as int
    &&& s.len() > 0 ==> s.last().day - s[0].day < SPAN_LIMIT as int
}

/// Index of the first sample at or after position `i` whose day is at least
/// `day`; the length of the series if there is none.
pub open spec fn first_from(s: Seq<Sample>, day: int, i: int) -> int
    decreases s.len() - i,
{
    if i < 0 || i >= s.len() {
        s.len() as int
    } else if s[i].day >= day {
        i
    } else {
        first_from(s, day, i + 1)
    }
}

/// Index of the first sample whose day is at least `day`.
pub open spec fn index_of_day(s: Seq<Sample>, day: int) -> int {
    first_from(s, day, 0)
}

/// Index just past the last sample whose day is at most `day`, searching
/// from `from`.
pub open spec fn index_past_day(s: Seq<Sample>, from: int, day: int) -> int {
    first_from(s, day + 1, from)
}

/// The samples whose day lies in `[start, end]`.
pub open spec fn window(s: Seq<Sample>, start: int, end: int) -> Seq<Sample> {
    let lo = index_of_day(s, start);
    s.subrange(lo, index_past_day(s, lo, end))
}

pub proof fn lemma_first_from_bounds(s: Seq<Sample>, day: int, i: int)
    requires
        0 <= i <= s.len(),
    ensures
        i <= first_from(s, day, i) <= s.len(),
        forall|j: int| i <= j < first_from(s, day, i) ==> (#[trigger] s[j]).day < day,
        first_from(s, day, i) < s.len() ==> s[first_from(s, day, i)].day >= day,
    decreases s.len() - i,
{
    if i < s.len() && s[i].day < day {
        lemma_first_from_bounds(s, day, i + 1);
    }
}

/// In an ascending series the search for the day of sample `k` finds `k`.
pub proof fn lemma_first_from_finds(s: Seq<Sample>, k: int, i: int)
    requires
        series_ok(s),
        0 <= i <= k < s.len(),
    ensures
        first_from(s, s[k].day as int, i) == k,
    decreases k - i,
{
    if i < k {
        lemma_first_from_finds(s, k, i + 1);
    }
}

/// In an ascending series the window of `[start, end]` holds the samples of
/// those days and no others.
pub proof fn lemma_window_holds_the_days(s: Seq<Sample>, start: int, end: int)
    requires
        series_ok(s),
    ensures
        0 <= index_of_day(s, start) <= index_past_day(s, index_of_day(s, start), end) <= s.len(),
        forall|i: int|
            0 <= i < s.len() ==> (index_of_day(s, start) <= i < index_past_day(s, index_of_day(s, start), end) <==> start
                <= (#[trigger] s[i]).day <= end),
{
    let lo = index_of_day(s, start);
    lemma_first_from_bounds(s, start, 0);
    let hi = index_past_day(s, lo, end);
    lemma_first_from_bounds(s, end + 1, lo);
    assert forall|i: int| 0 <= i < s.len() implies (lo <= i < hi <==> start <= (#[trigger] s[i]).day <= end) by {
        if i < lo {
            assert(s[i].day < start);
        } else if i < hi {
            assert(s[i].day < end + 1);
            if lo < i {
                assert(s[lo].day < s[i].day);
            }
        } else {
            if hi < i {
                assert(s[hi].day < s[i].day);
            }
        }
    }
}

/// Every part of an admissible series is admissible.
pub proof fn lemma_subrange_ok(s: Seq<Sample>, lo: int, hi: int)
    requires
        series_ok(s),
        0 <= lo <= hi <= s.len(),
    ensures
        series_ok(s.subrange(lo, hi)),
{
    let w = s.subrange(lo, hi);
    assert forall|i: int, j: int| 0 <= i < j < w.len() implies w[i].day < w[j].day by {
        assert(w[i] == s[lo + i] && w[j] == s[lo + j]);
    }
    assert forall|i: int| 0 <= i < w.len() implies -(VALUE_LIMIT as int) <= #[trigger] w[i].value
        <= VALUE_LIMIT as int by {
        assert(w[i] == s[lo + i]);
    }
    if w.len() > 0 {
        assert(w.last() == s[hi - 1] && w[0] == s[lo]);
        if hi - 1 < s.len() - 1 {
            assert(s[hi - 1].day < s.last().day);
        }
        if 0 < lo {
            assert(s[0].day < s[lo].day);
        }
    }
}

proof fn lemma_days_from(s: Seq<Sample>, i: int)
    requires
        series_ok(s),
        0 <= i < s.len(),
    ensures
        s[i].day - s[0].day >= i,
    decreases i,
{
    if i > 0 {
        lemma_days_from(s, i - 1);
        assert(s[i - 1].day < s[i].day);
    }
}

/// Strictly ascending days leave room for one sample per day at most: the
/// sample at index `i` lies at least `i` days after the first, and a series
/// holds no more samples than it may span days.
pub proof fn lemma_days_spread(s: Seq<Sample>, i: int)
    requires
        series_ok(s),
        0 <= i < s.len(),
    ensures
        i <= s[i].day - s[0].day < SPAN_LIMIT as int,
        s.len() <= SPAN_LIMIT as int,
{
    lemma_days_from(s, i);
    lemma_days_from(s, s.len() - 1);
    if i < s.len() - 1 {
        assert(s[i].day < s.last().day);
    }
}

/// Index of the first sample at or after position `from` whose day is at
/// least `day`.
pub fn find_from(series: &Vec<Sample>, day: u64, from: usize) -> (idx: usize)
    requires
        from <= series.len(),
    ensures
        idx == first_from(series@, day as int, from as int),
        from <= idx <= series.len(),
{
    let mut i: usize = from;
    while i < series.len() && (series[i].day as u64) < day
        invariant
            from <= i <= series.len(),
            first_from(series@, day as int, from as int) == first_from(series@, day as int, i as int),
        decreases series.len() - i,
    {
        i = i + 1;
    }
    proof {
        lemma_first_from_bounds(series@, day as int, from as int);
    }
    i
}

/// Checks that a series is admissible: strictly ascending days, values within
/// `VALUE_LIMIT`, fewer than `SPAN_LIMIT` days from first to last.
pub fn is_series_ok(series: &Vec<Sample>) -> (ok: bool)
    ensures
        ok == series_ok(series@),
{
    let n: usize = series.len();
    if n == 0 {
        return true;
    }
    if series[n - 1].day < series[0].day || series[n - 1].day - series[0].day >= SPAN_LIMIT {
        return false;
    }
    let mut i: usize = 0;
    while i < n
        invariant
            n == series.len(),
            0 <= i <= n,
            forall|a: int, b: int| 0 <= a < b < i ==> series@[a].day < series@[b].day,
            forall|a: int| 0 <= a < i ==> -(VALUE_LIMIT as int) <= #[trigger] series@[a].value <= VALUE_LIMIT as int,
        decreases n - i,
    {
        let p: Sample = series[i];
        if p.value < -VALUE_LIMIT || p.value > VALUE_LIMIT {
            return false;
        }
        if i > 0 && series[i - 1].day >= p.day {
            assert(!(series@[i - 1].day < series@[i as int].day));
            return false;
        }
        proof {
            assert forall|a: int, b: int| 0 <= a < b < i + 1 implies series@[a].day < series@[b].day by {
                if b == i && a < i - 1 {
                    assert(series@[a].day < series@[i - 1].day);
                }
            }
        }
        i = i + 1;
    }
    true
}

/// The samples whose day lies in `[start, end]`, in order.
pub fn get_numeric_values_between_dates(series: &Vec<Sample>, start: u32, end: u32) -> (out: Vec<Sample>)
    ensures
        out@ == window(series@, start as int, end as int),
{
    let lo: usize = find_from(series, start as u64, 0);
    let hi: usize = find_from(series, end as u64 + 1, lo);
    let mut out: Vec<Sample> = Vec::new();
    let mut i: usize = lo;
    while i < hi
        invariant
            lo <= i <= hi <= series.len(),
            out@ == series@.subrange(lo as int, i as int),
        decreases hi - i,
    {
        out.push(series[i]);
        assert(out@ =~= series@.subrange(lo as int, i + 1));
        i = i + 1;
    }
    out
}

/// The number of samples whose day lies in `[start, end]`.
pub fn count_entries(series: &Vec<Sample>, start: u32, end: u32) -> (n: usize)
    ensures
        n == window(series@, start as int, end as int).len(),
        n <= series@.len(),
{
    let lo: usize = find_from(series, start as u64, 0);
    let hi: usize = find_from(series, end as u64 + 1, lo);
    hi - lo
}

/// The first and the last day of a series.
pub fn get_range(series: &Vec<Sample>) -> (range: Option<(u32, u32)>)
    ensures
        series@.len() == 0 <==> range.is_none(),
        series@.len() > 0 ==> range == Some((series@[0].day, series@.last().day)),
{
    if series.len() == 0 {
        None
    } else {
        Some((series[0].day, series[series.len() - 1].day))
    }
}

} // verus!
