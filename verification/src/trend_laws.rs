//! What holds of every grown trend, and why cutting a series into trends
//! always moves on.

use vstd::prelude::*;
use crate::util::{Sample, Trend, SEED_WINDOW};
use crate::series::{series_ok, window, index_of_day, lemma_first_from_finds, lemma_first_from_bounds};
use crate::fit::trend_over;
use crate::extend::{ScanEnd, forward_scan, backward_trim, extended};

verus! {

/// Walking back never leaves the positions between the first and the one it
/// starts from.
pub proof fn lemma_backward_trim_bounds(s: Seq<Sample>, base: int, i: int, trend: Trend, outliers: int)
    ensures
        0 <= backward_trim(s, base, i, trend, outliers),
        i >= 0 ==> backward_trim(s, base, i, trend, outliers) <= i,
    decreases i,
{
    if !(i <= 0 || base < 0 || base + i >= s.len()) {
        let left = outliers - if trend.is_outlier(s[base + i]) { 1int } else { 0int };
        lemma_backward_trim_bounds(s, base, i - 1, trend, left);
    }
}

/// A scan that starts with a trend beginning on day `start` ends with a
/// trend beginning on that day, and a fresh fit is only ever turned down at
/// a position inside the series.
pub proof fn lemma_forward_scan_stays_inside(
    s: Seq<Sample>,
    base: int,
    i: int,
    trend: Trend,
    range: int,
    outliers: int,
)
    requires
        0 <= base,
        0 <= i,
    ensures
        match forward_scan(s, base, i, trend, range, outliers) {
            ScanEnd::Exhausted { trend: last } => last.start == trend.start,
            ScanEnd::Rejected { trend: last, at, outliers: _ } => last.start == trend.start && i <= at && base + at
                < s.len(),
            ScanEnd::Failed { error: _ } => true,
        },
    decreases s.len() - base - i,
{
    if base + i < s.len() {
        let p = s[base + i];
        let seen = outliers + if trend.is_outlier(p) { 1int } else { 0int };
        if i > 6 && 20 * seen > i + range {
            match trend_over(s, trend.start, p.day) {
                Err(_) => {},
                Ok(fresh) => {
                    let fresh_range = window(s, trend.start as int, fresh.end as int).len() as int;
                    lemma_forward_scan_stays_inside(s, base, i + 1, fresh, fresh_range, 0);
                },
            }
        } else {
            lemma_forward_scan_stays_inside(s, base, i + 1, trend, range, seen);
        }
    }
}

/// A trend grown in an ascending series ends on the day of a sample that is
/// the last of its seed or comes after it, and begins where its seed began.
pub proof fn lemma_extended_ends_on_a_sample(s: Seq<Sample>, seed: Trend)
    requires
        series_ok(s),
        index_of_day(s, seed.end as int) < s.len(),
    ensures
        extended(s, seed) matches Ok(grown) ==> {
            &&& grown.start == seed.start
            &&& grown.end >= seed.end
            &&& index_of_day(s, seed.end as int) <= index_of_day(s, grown.end as int) < s.len()
            &&& s[index_of_day(s, grown.end as int)].day == grown.end
        },
{
    let base = index_of_day(s, seed.end as int);
    lemma_first_from_bounds(s, seed.end as int, 0);
    let range = window(s, seed.start as int, seed.end as int).len() as int;
    lemma_forward_scan_stays_inside(s, base, 0, seed, range, 0);
    match forward_scan(s, base, 0, seed, range, 0) {
        ScanEnd::Failed { error: _ } => {},
        ScanEnd::Exhausted { trend: _ } => {
            lemma_first_from_finds(s, s.len() - 1, 0);
            if base < s.len() - 1 {
                assert(s[base].day < s[s.len() - 1].day);
            }
        },
        ScanEnd::Rejected { trend, at, outliers } => {
            lemma_backward_trim_bounds(s, base, at, trend, outliers);
            let stop = base + backward_trim(s, base, at, trend, outliers);
            lemma_first_from_finds(s, stop, 0);
            if base < stop {
                assert(s[base].day < s[stop].day);
            }
        },
    }
}

/// Each round of cutting a series into trends moves on: the trend grown from
/// the seed at index `from` ends at least thirteen samples later, on a sample
/// of the series.
pub proof fn lemma_round_moves_on(s: Seq<Sample>, from: int)
    requires
        series_ok(s),
        0 <= from,
        s.len() - from > SEED_WINDOW,
    ensures
        trend_over(s, s[from].day, s[from + SEED_WINDOW - 1].day) matches Ok(seed) ==> (extended(s, seed) matches Ok(
            grown,
        ) ==> from + SEED_WINDOW - 1 <= index_of_day(s, grown.end as int) < s.len()),
{
    match trend_over(s, s[from].day, s[from + SEED_WINDOW - 1].day) {
        Err(_) => {},
        Ok(seed) => {
            lemma_first_from_finds(s, from + SEED_WINDOW - 1, 0);
            lemma_extended_ends_on_a_sample(s, seed);
        },
    }
}

} // verus!
