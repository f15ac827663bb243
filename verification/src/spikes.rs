//! Flagging single-day spikes with a line fitted to the trailing two weeks.
//!
//! The detector keeps the samples of the last fourteen days. While it holds
//! fewer than four it judges nothing; while it holds fewer than ten it sets
//! each new sample aside; from ten on it fits a line through the samples it
//! holds, judges the new sample against it, and then the samples set aside.

use vstd::prelude::*;
use crate::util::{Sample, FitError, magnitude, line_ok, lemma_product_bound};
use crate::series::series_ok;
use crate::fit::{line_fit, deviation, residual, fit_window, deviation_range};

verus! {

/// The detector looks back this many days.
pub const ROLLING_AVERAGE_WINDOW: u32 = 14;

/// With fewer samples than this in the window no line is fitted.
pub const ROLLING_AVERAGE_MINIMUM: usize = 10;

/// With fewer samples than this in the window nothing is set aside either.
pub const ROLLING_AVERAGE_DISCARD: usize = 4;

/// What the detector carries from one sample to the next: the index of the
/// oldest sample it holds, the indices set aside, the days flagged so far.
pub struct Watch {
    pub front: int,
    pub recheck: Seq<usize>,
    pub spikes: Seq<u32>,
}

/// The front of the window after dropping every sample more than fourteen
/// days older than sample `k`.
pub open spec fn evicted_front(s: Seq<Sample>, front: int, k: int) -> int
    decreases k - front,
{
    if 0 <= front < k < s.len() && s[front].day + ROLLING_AVERAGE_WINDOW < s[k].day {
        evicted_front(s, front + 1, k)
    } else {
        front
    }
}

/// A new sample is a spike if it lies more than two and a half deviations
/// from the line.
pub open spec fn is_spike(p: Sample, origin: int, slope: int, intercept: int, stddev: int) -> bool {
    2 * magnitude(residual(p, origin, slope, intercept)) > 5 * stddev
}

/// A sample set aside is a spike if it lies more than two deviations from
/// the line.
pub open spec fn is_late_spike(p: Sample, origin: int, slope: int, intercept: int, stddev: int) -> bool {
    magnitude(residual(p, origin, slope, intercept)) > 2 * stddev
}

/// The days flagged among the samples set aside, latest first.
pub open spec fn rechecked(
    s: Seq<Sample>,
    recheck: Seq<usize>,
    origin: int,
    slope: int,
    intercept: int,
    stddev: int,
) -> Seq<u32>
    decreases recheck.len(),
{
    if recheck.len() == 0 {
        Seq::empty()
    } else {
        let p = s[recheck.last() as int];
        let rest = rechecked(s, recheck.drop_last(), origin, slope, intercept, stddev);
        if is_late_spike(p, origin, slope, intercept, stddev) {
            seq![p.day] + rest
        } else {
            rest
        }
    }
}

/// What the detector does with sample `k`.
pub open spec fn watch_step(s: Seq<Sample>, k: int, w: Watch) -> Result<Watch, FitError> {
    let front = evicted_front(s, w.front, k);
    let held = k - front;
    if held < ROLLING_AVERAGE_DISCARD {
        Ok(Watch { front, recheck: Seq::empty(), spikes: w.spikes })
    } else if held < ROLLING_AVERAGE_MINIMUM {
        Ok(Watch { front, recheck: w.recheck.push(k as usize), spikes: w.spikes })
    } else {
        let active = s.subrange(front, k);
        match line_fit(active) {
            Err(e) => Err(e),
            Ok(line) => {
                let stddev = deviation(active, line.0 as int, line.1 as int);
                let origin = s[front].day as int;
                let own: Seq<u32> = if is_spike(s[k], origin, line.0 as int, line.1 as int, stddev) {
                    seq![s[k].day]
                } else {
                    Seq::empty()
                };
                Ok(
                    Watch {
                        front,
                        recheck: Seq::empty(),
                        spikes: w.spikes + own + rechecked(
                            s,
                            w.recheck,
                            origin,
                            line.0 as int,
                            line.1 as int,
                            stddev,
                        ),
                    },
                )
            },
        }
    }
}

/// The days flagged once the detector has gone from sample `k` to the end.
pub open spec fn spikes_from(s: Seq<Sample>, k: int, w: Watch) -> Result<Seq<u32>, FitError>
    decreases s.len() - k,
{
    if k < 0 || k >= s.len() {
        Ok(w.spikes)
    } else {
        match watch_step(s, k, w) {
            Err(e) => Err(e),
            Ok(next) => spikes_from(s, k + 1, next),
        }
    }
}

/// The days flagged in a series, in the order in which they are found. A day
/// may occur more than once.
pub open spec fn spikes_of(s: Seq<Sample>) -> Result<Seq<u32>, FitError> {
    spikes_from(s, 0, Watch { front: 0, recheck: Seq::empty(), spikes: Seq::empty() })
}

/// The distance of a sample from a line.
fn distance_of(p: Sample, origin: u32, slope: i64, intercept: i64) -> (d: i128)
    requires
        line_ok(slope as int, intercept as int),
    ensures
        d == magnitude(residual(p, origin as int, slope as int, intercept as int)),
        0 <= d <= 0x4000_0000_0000_0000_0000,
{
    let dt: i128 = p.day as i128 - origin as i128;
    proof {
        lemma_product_bound(slope as int, dt as int, 2_000_000_000_000, 4_294_967_296);
    }
    let r: i128 = p.value as i128 - (intercept as i128 + slope as i128 * dt);
    if r >= 0 { r } else { -r }
}

/// Scans the whole series once and returns the days of its spikes. A line
/// is only ever fitted to ten samples or more, so no fit can fail.
pub fn detect_outliers(series: &Vec<Sample>) -> (days: Vec<u32>)
    requires
        series_ok(series@),
    ensures
        spikes_of(series@) == Ok::<Seq<u32>, FitError>(days@),
{
    let n: usize = series.len();
    let mut spikes: Vec<u32> = Vec::new();
    let mut recheck: Vec<usize> = Vec::new();
    let mut front: usize = 0;
    let mut k: usize = 0;
    while k < n
        invariant
            series_ok(series@),
            n == series.len(),
            front <= k <= n,
            forall|j: int| 0 <= j < recheck@.len() ==> recheck@[j] < k,
            spikes_of(series@) == spikes_from(
                series@,
                k as int,
                Watch { front: front as int, recheck: recheck@, spikes: spikes@ },
            ),
        decreases n - k,
    {
        let p: Sample = series[k];
        let ghost before = Watch { front: front as int, recheck: recheck@, spikes: spikes@ };
        while front < k && series[front].day as u64 + (ROLLING_AVERAGE_WINDOW as u64) < p.day as u64
            invariant
                front <= k < n,
                n == series.len(),
                p == series@[k as int],
                evicted_front(series@, before.front, k as int) == evicted_front(series@, front as int, k as int),
            decreases k - front,
        {
            front = front + 1;
        }
        let held: usize = k - front;
        assert(front == evicted_front(series@, before.front, k as int));
        if held < ROLLING_AVERAGE_DISCARD {
            recheck = Vec::new();
            assert(recheck@ =~= Seq::<usize>::empty());
        } else if held < ROLLING_AVERAGE_MINIMUM {
            recheck.push(k);
        } else {
            let line: (i64, i64) = fit_window(series, front, k);
            let stddev: i64 = deviation_range(series, front, k, line.0, line.1);
            let origin: u32 = series[front].day;
            if 2 * distance_of(p, origin, line.0, line.1) > 5 * (stddev as i128) {
                spikes.push(p.day);
                assert(spikes@ =~= before.spikes + seq![p.day]);
            } else {
                assert(spikes@ =~= before.spikes + Seq::<u32>::empty());
            }
            let ghost goal = spikes@ + rechecked(
                series@,
                recheck@,
                origin as int,
                line.0 as int,
                line.1 as int,
                stddev as int,
            );
            while recheck.len() > 0
                invariant
                    n == series.len(),
                    k < n,
                    line_ok(line.0 as int, line.1 as int),
                    forall|j: int| 0 <= j < recheck@.len() ==> recheck@[j] < k,
                    goal == spikes@ + rechecked(
                        series@,
                        recheck@,
                        origin as int,
                        line.0 as int,
                        line.1 as int,
                        stddev as int,
                    ),
                decreases recheck.len(),
            {
                let ghost pending = recheck@;
                let ghost flagged = spikes@;
                let idx: usize = recheck.pop().unwrap();
                assert(idx == pending[pending.len() - 1]);
                assert(recheck@ =~= pending.drop_last());
                let q: Sample = series[idx];
                if distance_of(q, origin, line.0, line.1) > 2 * (stddev as i128) {
                    spikes.push(q.day);
                    assert(spikes@ + rechecked(
                        series@,
                        recheck@,
                        origin as int,
                        line.0 as int,
                        line.1 as int,
                        stddev as int,
                    ) =~= flagged + (seq![q.day] + rechecked(
                        series@,
                        recheck@,
                        origin as int,
                        line.0 as int,
                        line.1 as int,
                        stddev as int,
                    )));
                }
            }
            assert(goal =~= spikes@);
            assert(recheck@ =~= Seq::<usize>::empty());
        }
        assert(watch_step(series@, k as int, before) == Ok::<Watch, FitError>(
            Watch { front: front as int, recheck: recheck@, spikes: spikes@ },
        ));
        k = k + 1;
    }
    spikes
}

} // verus!
