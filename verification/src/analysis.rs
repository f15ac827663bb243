//! Cutting a series into trends: seed a trend on fourteen samples, grow it,
//! keep it if it is long and steep enough, and start again where it ends.

use vstd::prelude::*;
use crate::util::{Sample, Trend, FitError, TrendError, SEED_WINDOW};
use crate::series::{series_ok, index_of_day, find_from, lemma_first_from_finds};
use crate::fit::{trend_over, fit_trend, lemma_window_fit_succeeds};
use crate::extend::{extended, extend_trend, trend_valid, validate_trend};

verus! {

/// The trends found from index `from` on. A grown trend ends on or after the
/// last sample of its seed, so each round starts at least thirteen samples
/// after the one before; the test on `next` only makes that plain to see.
pub open spec fn segments(s: Seq<Sample>, from: int) -> Result<Seq<Trend>, FitError>
    decreases s.len() - from,
{
    if from < 0 || s.len() - from <= SEED_WINDOW {
        Ok(Seq::empty())
    } else {
        match trend_over(s, s[from].day, s[from + SEED_WINDOW - 1].day) {
            Err(e) => Err(e),
            Ok(seed) => match extended(s, seed) {
                Err(e) => Err(e),
                Ok(grown) => {
                    let next = index_of_day(s, grown.end as int);
                    if from < next <= s.len() {
                        match segments(s, next) {
                            Err(e) => Err(e),
                            Ok(rest) => Ok(
                                if trend_valid(grown) {
                                    seq![grown] + rest
                                } else {
                                    rest
                                },
                            ),
                        }
                    } else {
                        Ok(Seq::empty())
                    }
                },
            },
        }
    }
}

/// All the trends of a series, in order; fails for want of data on a series
/// of fewer than fifteen samples.
pub open spec fn all_trends(s: Seq<Sample>) -> Result<Seq<Trend>, TrendError> {
    if s.len() <= SEED_WINDOW {
        Err(TrendError::InsufficientData)
    } else {
        match segments(s, 0) {
            Err(e) => Err(TrendError::Fit(e)),
            Ok(trends) => Ok(trends),
        }
    }
}

/// Trends already found, followed by those still to come.
pub open spec fn found_then(found: Seq<Trend>, rest: Result<Seq<Trend>, FitError>) -> Result<Seq<Trend>, FitError> {
    match rest {
        Err(e) => Err(e),
        Ok(more) => Ok(found + more),
    }
}

/// Whether a computed answer is the one `all_trends` gives.
pub open spec fn is_all_trends(s: Seq<Sample>, answer: Result<Vec<Trend>, TrendError>) -> bool {
    match answer {
        Ok(trends) => all_trends(s) == Ok::<Seq<Trend>, TrendError>(trends@),
        Err(e) => all_trends(s) == Err::<Seq<Trend>, TrendError>(e),
    }
}

/// Finds every trend of a series.
pub fn find_all_trends(series: &Vec<Sample>) -> (answer: Result<Vec<Trend>, TrendError>)
    requires
        series_ok(series@),
    ensures
        is_all_trends(series@, answer),
        series@.len() < 15 <==> answer == Err::<Vec<Trend>, TrendError>(TrendError::InsufficientData),
        series@.len() >= 15 <==> answer is Ok,
        answer matches Ok(trends) ==> forall|i: int|
            0 <= i < trends@.len() ==> (#[trigger] trends@[i]).wf() && trend_valid(trends@[i]),
        answer matches Ok(trends) ==> forall|i: int, j: int|
            0 <= i < j < trends@.len() ==> trends@[i].end <= trends@[j].start,
{
    let n: usize = series.len();
    if n < 15 {
        return Err(TrendError::InsufficientData);
    }
    let mut trends: Vec<Trend> = Vec::new();
    let mut from: usize = 0;
    assert(found_then(trends@, segments(series@, 0)) == segments(series@, 0)) by {
        match segments(series@, 0) {
            Ok(more) => {
                assert(trends@ + more =~= more);
            },
            Err(_) => {},
        }
    }
    while n - from > SEED_WINDOW
        invariant
            series_ok(series@),
            n == series.len(),
            n >= 15,
            from <= n,
            segments(series@, 0) == found_then(trends@, segments(series@, from as int)),
            forall|i: int| 0 <= i < trends@.len() ==> (#[trigger] trends@[i]).wf() && trend_valid(trends@[i]),
            forall|i: int, j: int| 0 <= i < j < trends@.len() ==> trends@[i].end <= trends@[j].start,
            forall|i: int| 0 <= i < trends@.len() ==> from < n && (#[trigger] trends@[i]).end <= series@[from as int].day,
        decreases n - from,
    {
        proof {
            lemma_window_fit_succeeds(
                series@,
                series@[from as int].day,
                series@[from + SEED_WINDOW - 1].day,
                from as int,
                from + SEED_WINDOW - 1,
            );
        }
        let seed: Trend = fit_trend(series, series[from].day, series[from + SEED_WINDOW - 1].day);
        let grown: Trend = extend_trend(series, &seed);
        proof {
            lemma_first_from_finds(series@, from + SEED_WINDOW - 1, 0);
        }
        let next: usize = find_from(series, grown.end as u64, 0);
        let ghost found = trends@;
        proof {
            if from < next {
                assert(series@[from as int].day < series@[next as int].day);
            }
        }
        if validate_trend(&grown) {
            trends.push(grown);
        }
        proof {
            match segments(series@, next as int) {
                Ok(rest) => {
                    if trend_valid(grown) {
                        assert(found + (seq![grown] + rest) =~= trends@ + rest);
                    }
                },
                Err(_) => {},
            }
        }
        from = next;
    }
    assert(trends@ + Seq::<Trend>::empty() =~= trends@);
    Ok(trends)
}

/// Finds the trends of every metric. Each metric gets its own answer: one
/// that has too little data does not keep the others from being analysed.
pub fn analyze(metrics: &Vec<Vec<Sample>>) -> (answers: Vec<Result<Vec<Trend>, TrendError>>)
    requires
        forall|i: int| 0 <= i < metrics@.len() ==> series_ok((#[trigger] metrics@[i])@),
    ensures
        answers@.len() == metrics@.len(),
        forall|i: int| 0 <= i < metrics@.len() ==> is_all_trends((#[trigger] metrics@[i])@, answers@[i]),
        forall|i: int| 0 <= i < metrics@.len() ==> ((#[trigger] metrics@[i])@.len() >= 15 <==> answers@[i] is Ok),
{
    let mut answers: Vec<Result<Vec<Trend>, TrendError>> = Vec::new();
    let mut m: usize = 0;
    while m < metrics.len()
        invariant
            m <= metrics.len(),
            answers@.len() == m,
            forall|i: int| 0 <= i < metrics@.len() ==> series_ok((#[trigger] metrics@[i])@),
            forall|i: int| 0 <= i < m ==> is_all_trends((#[trigger] metrics@[i])@, answers@[i]),
            forall|i: int| 0 <= i < m ==> ((#[trigger] metrics@[i])@.len() >= 15 <==> answers@[i] is Ok),
        decreases metrics.len() - m,
    {
        let answer = find_all_trends(&metrics[m]);
        answers.push(answer);
        m = m + 1;
    }
    answers
}

/// Two answers for the same series are the same answer: the trends of a
/// series depend on its samples alone.
pub proof fn lemma_find_all_trends_deterministic(
    s: Seq<Sample>,
    first: Result<Vec<Trend>, TrendError>,
    second: Result<Vec<Trend>, TrendError>,
)
    requires
        is_all_trends(s, first),
        is_all_trends(s, second),
    ensures
        first is Ok <==> second is Ok,
        first is Ok ==> first->Ok_0@ == second->Ok_0@,
        first is Err ==> first->Err_0 == second->Err_0,
{
}

} // verus!
