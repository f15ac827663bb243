//! Growing a seed trend forward through a series, and the filter that
//! decides whether a finished trend is kept.
//!
//! The scan walks the samples that follow the seed. It counts those that lie
//! more than two deviations from the line; once more than a twentieth of the
//! points considered are such outliers it fits a fresh line from the start of
//! the trend to the current day. A fresh line that is good enough replaces
//! the trend and the scan goes on; otherwise the scan stops and the end of
//! the trend is walked back to a day up to which the line still held.

use vstd::prelude::*;
use crate::util::{Sample, Trend, FitError, lemma_product_bound, MIN_TREND_DAYS, MIN_TREND_SLOPE, SEED_WINDOW, magnitude};
use crate::series::{series_ok, window, index_of_day, find_from, count_entries, lemma_days_spread, lemma_first_from_bounds, lemma_first_from_finds};
use crate::fit::{trend_over, fit_trend, lemma_window_fit_succeeds};

verus! {

/// A trend is kept if it covers at least thirty days and rises or falls by
/// more than a tenth of a unit per day.
pub open spec fn trend_valid(t: Trend) -> bool {
    &&& t.end - t.start >= MIN_TREND_DAYS as int
    &&& magnitude(t.slope as int) > MIN_TREND_SLOPE as int
}

/// Decides whether a finished trend is kept.
pub fn validate_trend(trend: &Trend) -> (ok: bool)
    ensures
        ok == trend_valid(*trend),
{
    let sufficient_length: bool = trend.end as i64 - trend.start as i64 >= MIN_TREND_DAYS as i64;
    let significant_slope: bool = trend.slope > MIN_TREND_SLOPE || trend.slope < -MIN_TREND_SLOPE;
    sufficient_length && significant_slope
}

/// During the forward scan a fresh fit is due after the warm-up of seven
/// samples once `outliers / (i + range)` exceeds one twentieth.
pub open spec fn refit_due(i: int, outliers: int, range: int) -> bool {
    i > 6 && 20 * outliers > i + range
}

/// Walking back stops once `outliers / (i + 14)` is below one twentieth: the
/// count is set against the size of a seed window here, not against the
/// number of samples the trend was fitted to.
pub open spec fn trim_done(i: int, outliers: int) -> bool {
    20 * outliers < i + SEED_WINDOW
}

/// Whether a fresh fit replaces the trend. With confidence the number of
/// samples divided by the deviation, the fresh fit is accepted when
/// `new_range / new_stddev >= (range / stddev) * (new_range / (1.1 * range))`.
/// The comparison is stated here with both sides multiplied by the four
/// denominators, so that a deviation of zero counts as boundless confidence.
/// A trend fitted to no sample has no confidence to compare with, and
/// nothing is accepted in its place.
pub open spec fn refit_accepted(range: int, stddev: int, new_range: int, new_stddev: int) -> bool {
    range > 0 && (new_range * range) * (11 * stddev) >= (range * new_range) * (10 * new_stddev)
}

/// How the forward scan ended.
pub enum ScanEnd {
    /// Every remaining sample was scanned.
    Exhausted { trend: Trend },
    /// A fresh fit at position `at` was turned down; `outliers` counts the
    /// outliers seen since the trend was last replaced.
    Rejected { trend: Trend, at: int, outliers: int },
    /// A fresh fit could not be computed.
    Failed { error: FitError },
}

/// The forward scan from position `i` of the samples that start at index
/// `base`, with the trend, its sample count and the outliers counted so far.
pub open spec fn forward_scan(s: Seq<Sample>, base: int, i: int, trend: Trend, range: int, outliers: int) -> ScanEnd
    decreases s.len() - base - i,
{
    if base < 0 || i < 0 || base + i >= s.len() {
        ScanEnd::Exhausted { trend }
    } else {
        let p = s[base + i];
        let seen = outliers + if trend.is_outlier(p) { 1int } else { 0int };
        if refit_due(i, seen, range) {
            match trend_over(s, trend.start, p.day) {
                Err(error) => ScanEnd::Failed { error },
                Ok(fresh) => {
                    let fresh_range = window(s, trend.start as int, fresh.end as int).len() as int;
                    if refit_accepted(range, trend.stddev as int, fresh_range, fresh.stddev as int) {
                        forward_scan(s, base, i + 1, fresh, fresh_range, 0)
                    } else {
                        ScanEnd::Rejected { trend, at: i, outliers: seen }
                    }
                },
            }
        } else {
            forward_scan(s, base, i + 1, trend, range, seen)
        }
    }
}

/// The position at which walking back from `i` stops: each sample stepped
/// past gives back its outlier, and position zero is never stepped past.
pub open spec fn backward_trim(s: Seq<Sample>, base: int, i: int, trend: Trend, outliers: int) -> int
    decreases i,
{
    if i <= 0 || base < 0 || base + i >= s.len() {
        0
    } else {
        let left = outliers - if trend.is_outlier(s[base + i]) { 1int } else { 0int };
        if trim_done(i, left) {
            i
        } else {
            backward_trim(s, base, i - 1, trend, left)
        }
    }
}

/// The same line with another last day.
pub open spec fn ending_on(t: Trend, end: u32) -> Trend {
    Trend { start: t.start, end, orig_val: t.orig_val, slope: t.slope, stddev: t.stddev }
}

/// The trend grown as far as the series supports it. Where no sample lies on
/// or after the end of the seed, the seed is returned as it is.
pub open spec fn extended(s: Seq<Sample>, seed: Trend) -> Result<Trend, FitError> {
    let base = index_of_day(s, seed.end as int);
    if base >= s.len() {
        Ok(seed)
    } else {
        let range = window(s, seed.start as int, seed.end as int).len() as int;
        match forward_scan(s, base, 0, seed, range, 0) {
            ScanEnd::Failed { error } => Err(error),
            ScanEnd::Exhausted { trend } => Ok(ending_on(trend, s[s.len() - 1].day)),
            ScanEnd::Rejected { trend, at, outliers } => Ok(
                ending_on(trend, s[base + backward_trim(s, base, at, trend, outliers)].day),
            ),
        }
    }
}

/// For positive sample counts the acceptance of a fresh fit depends on the
/// two deviations alone: the fresh deviation may exceed the old one by a
/// tenth at most.
pub proof fn lemma_refit_accepted_by_deviation(range: int, stddev: int, new_range: int, new_stddev: int)
    by (nonlinear_arith)
    requires
        range > 0,
        new_range > 0,
    ensures
        refit_accepted(range, stddev, new_range, new_stddev) <==> 11 * stddev >= 10 * new_stddev,
{
    let k = new_range * range;
    assert(k > 0);
    assert(range * new_range == k);
    if 11 * stddev >= 10 * new_stddev {
        assert(k * (11 * stddev) >= k * (10 * new_stddev));
    } else {
        assert(k * (11 * stddev) < k * (10 * new_stddev));
    }
}

fn outlier_of(trend: &Trend, p: Sample) -> (out: bool)
    requires
        trend.wf(),
    ensures
        out == trend.is_outlier(p),
{
    let dt: i128 = p.day as i128 - trend.start as i128;
    proof {
        lemma_product_bound(trend.slope as int, dt as int, 2_000_000_000_000, 4_294_967_296);
    }
    let expected: i128 = trend.orig_val as i128 + trend.slope as i128 * dt;
    let diff: i128 = p.value as i128 - expected;
    let distance: i128 = if diff >= 0 { diff } else { -diff };
    distance > 2 * (trend.stddev as i128)
}

fn refit_is_accepted(range: usize, stddev: i64, new_range: usize, new_stddev: i64) -> (ok: bool)
    requires
        range <= 16_384,
        new_range <= 16_384,
        0 <= stddev <= 65_538_000_000_000_000,
        0 <= new_stddev <= 65_538_000_000_000_000,
    ensures
        ok == refit_accepted(range as int, stddev as int, new_range as int, new_stddev as int),
{
    proof {
        lemma_product_bound(new_range as int, range as int, 16_384, 16_384);
        assert(new_range * range == range * new_range) by (nonlinear_arith);
        assert(new_range * range >= 0) by (nonlinear_arith)
            requires
                new_range >= 0,
                range >= 0,
        ;
    }
    let pairs: u128 = (new_range as u128) * (range as u128);
    let old_side: u128 = 11 * (stddev as u128);
    let new_side: u128 = 10 * (new_stddev as u128);
    proof {
        lemma_product_bound(pairs as int, old_side as int, 268_435_456, 720_918_000_000_000_000);
        lemma_product_bound(pairs as int, new_side as int, 268_435_456, 720_918_000_000_000_000);
    }
    range > 0 && pairs * old_side >= pairs * new_side
}

/// Walks the end of a trend back from position `at` after a fresh fit was
/// turned down, and returns the position at which it stops.
fn trim_back(series: &Vec<Sample>, base: usize, at: usize, trend: &Trend, outliers: usize) -> (stop: usize)
    requires
        trend.wf(),
        base + at < series.len(),
        series.len() <= 16_384,
        1 <= outliers <= 16_384,
    ensures
        stop == backward_trim(series@, base as int, at as int, *trend, outliers as int),
        stop <= at,
{
    let mut i: usize = at;
    let mut left: usize = outliers;
    let mut done: bool = false;
    while i > 0 && !done
        invariant
            trend.wf(),
            i <= at,
            base + at < series.len(),
            series.len() <= 16_384,
            1 <= left <= 16_384,
            !done ==> backward_trim(series@, base as int, at as int, *trend, outliers as int)
                == backward_trim(series@, base as int, i as int, *trend, left as int),
            done ==> backward_trim(series@, base as int, at as int, *trend, outliers as int) == i,
        decreases i + (if done { 0int } else { 1int }),
    {
        let flagged: bool = outlier_of(trend, series[base + i]);
        let rest: usize = if flagged { left - 1 } else { left };
        if 20 * rest < i + SEED_WINDOW {
            done = true;
        } else {
            left = rest;
            i = i - 1;
        }
    }
    i
}

/// Grows a seed trend through the samples that follow it and returns it with
/// its revised last day. Every fresh fit spans the eight samples scanned so
/// far or more, so none can fail.
pub fn extend_trend(series: &Vec<Sample>, trend: &Trend) -> (grown: Trend)
    requires
        series_ok(series@),
        trend.wf(),
    ensures
        extended(series@, *trend) == Ok::<Trend, FitError>(grown),
        grown.wf(),
        grown.start == trend.start,
        grown.end >= trend.end,
        index_of_day(series@, trend.end as int) < series@.len() ==> {
            &&& index_of_day(series@, trend.end as int) <= index_of_day(series@, grown.end as int) < series@.len()
            &&& series@[index_of_day(series@, grown.end as int)].day == grown.end
        },
{
    let n: usize = series.len();
    let base: usize = find_from(series, trend.end as u64, 0);
    if base >= n {
        return *trend;
    }
    proof {
        lemma_days_spread(series@, 0);
        lemma_first_from_bounds(series@, trend.end as int, 0);
    }
    let first_range: usize = count_entries(series, trend.start, trend.end);
    let ghost whole = forward_scan(series@, base as int, 0, *trend, first_range as int, 0);
    let mut cur: Trend = *trend;
    let mut range: usize = first_range;
    let mut outliers: usize = 0;
    let mut i: usize = 0;
    let mut rejected: bool = false;
    while base + i < n && !rejected
        invariant
            series_ok(series@),
            n == series.len(),
            n <= 16_384,
            base < n,
            base + i <= n,
            base == index_of_day(series@, trend.end as int),
            whole == forward_scan(
                series@,
                base as int,
                0,
                *trend,
                window(series@, trend.start as int, trend.end as int).len() as int,
                0,
            ),
            cur.wf(),
            cur.start == trend.start,
            trend.start <= series@[base as int].day,
            range <= n,
            outliers <= i + 1,
            !rejected ==> outliers <= i,
            !rejected ==> whole == forward_scan(series@, base as int, i as int, cur, range as int, outliers as int),
            rejected ==> base + i < n && outliers >= 1 && whole == (ScanEnd::Rejected {
                trend: cur,
                at: i as int,
                outliers: outliers as int,
            }),
        decreases n - base - i + (if rejected { 0int } else { 1int }),
    {
        let p: Sample = series[base + i];
        let seen: usize = if outlier_of(&cur, p) { outliers + 1 } else { outliers };
        if i > 6 && 20 * seen > i + range {
            proof {
                lemma_window_fit_succeeds(series@, cur.start, p.day, base as int, base + i);
            }
            let fresh: Trend = fit_trend(series, cur.start, p.day);
            let fresh_range: usize = count_entries(series, cur.start, fresh.end);
            if refit_is_accepted(range, cur.stddev, fresh_range, fresh.stddev) {
                cur = fresh;
                range = fresh_range;
                outliers = 0;
                i = i + 1;
            } else {
                outliers = seen;
                rejected = true;
            }
        } else {
            outliers = seen;
            i = i + 1;
        }
    }
    let stop: usize = if rejected {
        trim_back(series, base, i, &cur, outliers)
    } else {
        n - base - 1
    };
    proof {
        lemma_first_from_finds(series@, base + stop, 0);
        if base + stop > base {
            assert(series@[base as int].day < series@[base + stop].day);
        }
    }
    Trend { start: cur.start, end: series[base + stop].day, orig_val: cur.orig_val, slope: cur.slope, stddev: cur.stddev }
}

} // verus!
