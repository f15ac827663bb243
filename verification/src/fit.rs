//! Least-squares lines through windows of a series, in fixed-point
//! arithmetic with every rounding step stated.
//!
//! With `t` the days counted from the first sample of the window, `v` the
//! values and `n` the number of samples, the slope is
//! `(n Σtv − Σt Σv) / (n Σt² − (Σt)²)`. This is the quotient
//! `Σ(t − t̄)(v − c) / Σ(t − t̄)²` whatever constant `c` is subtracted from
//! the values, because the deviations `t − t̄` sum to zero: the mean of the
//! values and the mean of the days give the same slope.

use vstd::prelude::*;
use crate::util::{Sample, Trend, FitError, line_ok, magnitude, lemma_product_bound, SPAN_LIMIT, RESIDUAL_LIMIT};
use crate::series::{
    series_ok, window, index_of_day, index_past_day, find_from, count_entries, lemma_subrange_ok, lemma_days_spread,
    lemma_first_from_bounds, lemma_window_holds_the_days,
};
use crate::root::{int_sqrt, isqrt, lemma_int_sqrt_bounds};

verus! {

/// The sums `(Σt, Σt², Σv, Σtv)` over a window, with `t = day − origin`.
pub open spec fn moments(s: Seq<Sample>, origin: int) -> (int, int, int, int)
    decreases s.len(),
{
    if s.len() == 0 {
        (0, 0, 0, 0)
    } else {
        let m = moments(s.drop_last(), origin);
        let t = s.last().day - origin;
        let v = s.last().value as int;
        (m.0 + t, m.1 + t * t, m.2 + v, m.3 + t * v)
    }
}

/// The day of the first sample, from which a fit counts its days.
pub open spec fn first_day(s: Seq<Sample>) -> int {
    if s.len() == 0 { 0 } else { s[0].day as int }
}

/// `n Σt² − (Σt)²` with the days counted from `origin`.
pub open spec fn spread_from(s: Seq<Sample>, origin: int) -> int {
    let m = moments(s, origin);
    s.len() * m.1 - m.0 * m.0
}

/// `n Σt² − (Σt)²`: `n²` times the variance of the days. It is zero exactly
/// when no two samples differ in their day.
pub open spec fn day_spread(s: Seq<Sample>) -> int {
    spread_from(s, first_day(s))
}

/// `n Σtv − Σt Σv` with the days counted from `origin`.
pub open spec fn joint_from(s: Seq<Sample>, origin: int) -> int {
    let m = moments(s, origin);
    s.len() * m.3 - m.0 * m.2
}

/// `n Σtv − Σt Σv`: `n²` times the covariance of days and values.
pub open spec fn joint_spread(s: Seq<Sample>) -> int {
    joint_from(s, first_day(s))
}

/// Division that rounds toward zero, for a positive divisor.
pub open spec fn quotient(a: int, b: int) -> int {
    if a >= 0 { a / b } else { -((-a) / b) }
}

/// The fitted slope, rounded toward zero.
pub open spec fn slope_of(s: Seq<Sample>) -> int {
    quotient(joint_spread(s), day_spread(s))
}

/// The fitted value on the first day, `v̄ − slope · t̄`, rounded toward zero.
pub open spec fn intercept_of(s: Seq<Sample>) -> int {
    let m = moments(s, first_day(s));
    quotient(m.2 - slope_of(s) * m.0, s.len() as int)
}

/// The least-squares line through a window, as `(slope, intercept)`: it
/// fails only where the days have no spread. On an admissible window the
/// slope is within `SLOPE_LIMIT` and the intercept within `ORIGIN_LIMIT`.
pub open spec fn line_fit(s: Seq<Sample>) -> Result<(i64, i64), FitError> {
    if day_spread(s) == 0 {
        Err(FitError::DegenerateFit)
    } else {
        Ok((slope_of(s) as i64, intercept_of(s) as i64))
    }
}

/// How far a sample lies above the line through `(origin, intercept)`.
pub open spec fn residual(p: Sample, origin: int, slope: int, intercept: int) -> int {
    p.value - (intercept + slope * (p.day - origin))
}

/// The sum of the squared residuals of a window.
pub open spec fn squared_error(s: Seq<Sample>, origin: int, slope: int, intercept: int) -> int
    decreases s.len(),
{
    if s.len() == 0 {
        0
    } else {
        let r = residual(s.last(), origin, slope, intercept);
        squared_error(s.drop_last(), origin, slope, intercept) + r * r
    }
}

/// The root of the mean squared residual, each step rounded down.
pub open spec fn deviation(s: Seq<Sample>, slope: int, intercept: int) -> int {
    if s.len() == 0 {
        0
    } else {
        int_sqrt((squared_error(s, first_day(s), slope, intercept) / (s.len() as int)) as nat) as int
    }
}

/// The trend fitted to the samples of `[start, end]`.
pub open spec fn trend_over(s: Seq<Sample>, start: u32, end: u32) -> Result<Trend, FitError> {
    let w = window(s, start as int, end as int);
    match line_fit(w) {
        Err(e) => Err(e),
        Ok(line) => Ok(
            Trend {
                start,
                end,
                orig_val: line.1,
                slope: line.0,
                stddev: deviation(w, line.0 as int, line.1 as int) as i64,
            },
        ),
    }
}

/// `Σ(t − c)²`, written out over the sums, is not negative, and with a
/// first sample it is at least that sample's share.
proof fn lemma_shifted_squares(s: Seq<Sample>, origin: int, c: int)
    ensures
        moments(s, origin).1 - 2 * c * moments(s, origin).0 + s.len() * c * c >= 0,
        s.len() > 0 ==> moments(s, origin).1 - 2 * c * moments(s, origin).0 + s.len() * c * c >= (s[0].day
            - origin - c) * (s[0].day - origin - c),
    decreases s.len(),
{
    if s.len() > 0 {
        let head = s.drop_last();
        lemma_shifted_squares(head, origin, c);
        let m = moments(s, origin);
        let h = moments(head, origin);
        let t = s.last().day - origin;
        let k = head.len() as int;
        let n = s.len() as int;
        assert(m.1 - 2 * c * m.0 + n * c * c == (h.1 - 2 * c * h.0 + k * c * c) + (t - c) * (t - c))
            by (nonlinear_arith)
            requires
                m.0 == h.0 + t,
                m.1 == h.1 + t * t,
                n == k + 1,
        ;
        assert((t - c) * (t - c) >= 0) by (nonlinear_arith);
        if k > 0 {
            assert(head[0] == s[0]);
        }
    }
}

/// Adding a sample adds `Σ(t − t_new)²` to the spread.
proof fn lemma_spread_step(s: Seq<Sample>, origin: int)
    requires
        s.len() > 0,
    ensures
        spread_from(s, origin) == spread_from(s.drop_last(), origin) + (moments(s.drop_last(), origin).1 - 2 * (
        s.last().day - origin) * moments(s.drop_last(), origin).0 + s.drop_last().len() * (s.last().day
            - origin) * (s.last().day - origin)),
{
    let head = s.drop_last();
    let m = moments(s, origin);
    let h = moments(head, origin);
    let t = s.last().day - origin;
    let k = head.len() as int;
    let n = s.len() as int;
    assert(n * m.1 - m.0 * m.0 == (k * h.1 - h.0 * h.0) + (h.1 - 2 * t * h.0 + k * t * t)) by (nonlinear_arith)
        requires
            m.0 == h.0 + t,
            m.1 == h.1 + t * t,
            n == k + 1,
    ;
}

/// The spread of the days is never negative.
pub proof fn lemma_spread_not_negative(s: Seq<Sample>, origin: int)
    ensures
        spread_from(s, origin) >= 0,
    decreases s.len(),
{
    if s.len() > 0 {
        lemma_spread_not_negative(s.drop_last(), origin);
        lemma_spread_step(s, origin);
        lemma_shifted_squares(s.drop_last(), origin, s.last().day - origin);
    } else {
        assert(0 * 0 == 0) by (nonlinear_arith);
    }
}

/// Two samples on different days make the spread positive.
pub proof fn lemma_spread_positive(s: Seq<Sample>, origin: int, j: int)
    requires
        0 <= j < s.len(),
        s[j].day != s[0].day,
    ensures
        spread_from(s, origin) > 0,
    decreases s.len(),
{
    let head = s.drop_last();
    lemma_spread_step(s, origin);
    let c = s.last().day - origin;
    lemma_shifted_squares(head, origin, c);
    if j == s.len() - 1 {
        lemma_spread_not_negative(head, origin);
        assert(head[0] == s[0]);
        let gap = s[0].day - origin - c;
        assert(gap * gap > 0) by (nonlinear_arith)
            requires
                gap != 0,
        ;
    } else {
        assert(head[j] == s[j]);
        assert(head[0] == s[0]);
        lemma_spread_positive(head, origin, j);
    }
}

/// Samples that all share one day have no spread.
pub proof fn lemma_spread_zero_on_one_day(s: Seq<Sample>, origin: int)
    requires
        forall|i: int| 0 <= i < s.len() ==> (#[trigger] s[i]).day == s[0].day,
    ensures
        spread_from(s, origin) == 0,
        s.len() > 0 ==> moments(s, origin).0 == s.len() * (s[0].day - origin),
        s.len() > 0 ==> moments(s, origin).1 == s.len() * ((s[0].day - origin) * (s[0].day - origin)),
    decreases s.len(),
{
    if s.len() == 0 {
        assert(0 * 0 == 0) by (nonlinear_arith);
    } else {
        let head = s.drop_last();
        let c = s[0].day - origin;
        let n = s.len() as int;
        let m = moments(s, origin);
        assert(s.last() == s[n - 1]);
        if head.len() > 0 {
            assert(head[0] == s[0]);
            assert forall|i: int| 0 <= i < head.len() implies (#[trigger] head[i]).day == head[0].day by {
                assert(head[i] == s[i]);
            }
            lemma_spread_zero_on_one_day(head, origin);
        }
        let h = moments(head, origin);
        assert(m.0 == h.0 + c && m.1 == h.1 + c * c);
        if head.len() == 0 {
            assert(h.0 == 0 && h.1 == 0);
        }
        assert(m.0 == n * c && m.1 == n * (c * c)) by (nonlinear_arith)
            requires
                n >= 1,
                n == 1 ==> m.0 == c && m.1 == c * c,
                n > 1 ==> m.0 == (n - 1) * c + c && m.1 == (n - 1) * (c * c) + c * c,
        ;
        assert(n * m.1 - m.0 * m.0 == 0) by (nonlinear_arith)
            requires
                m.0 == n * c,
                m.1 == n * (c * c),
        ;
    }
}

/// A fit is degenerate exactly when all its samples share one day; in an
/// admissible series, when there are fewer than two samples.
pub proof fn lemma_degenerate_iff_one_day(s: Seq<Sample>)
    ensures
        day_spread(s) == 0 <==> (forall|i: int| 0 <= i < s.len() ==> (#[trigger] s[i]).day == s[0].day),
        series_ok(s) ==> (day_spread(s) == 0 <==> s.len() < 2),
        line_fit(s) == Err::<(i64, i64), FitError>(FitError::DegenerateFit) <==> day_spread(s) == 0,
{
    let origin = first_day(s);
    if forall|i: int| 0 <= i < s.len() ==> (#[trigger] s[i]).day == s[0].day {
        lemma_spread_zero_on_one_day(s, origin);
    } else {
        let j = choose|j: int| 0 <= j < s.len() && (#[trigger] s[j]).day != s[0].day;
        lemma_spread_positive(s, origin, j);
    }
    if series_ok(s) && s.len() >= 2 {
        assert(s[0].day < s[1].day);
        lemma_spread_positive(s, origin, 1);
    }
    if s.len() < 2 {
        lemma_spread_zero_on_one_day(s, origin);
    }
}

/// `Σ (t − c)(v − w)`, written out over the sums, is in magnitude at most
/// `2 · limit · Σ (t − c)²` where `w` and every value lie within `limit`:
/// a whole number is no larger than its square.
proof fn lemma_shifted_products(s: Seq<Sample>, origin: int, c: int, w: int, limit: int)
    requires
        limit >= 0,
        -limit <= w <= limit,
        forall|i: int| 0 <= i < s.len() ==> -limit <= (#[trigger] s[i]).value <= limit,
    ensures
        magnitude(moments(s, origin).3 - c * moments(s, origin).2 - w * moments(s, origin).0 + s.len() * c * w) <= 2
            * limit * (moments(s, origin).1 - 2 * c * moments(s, origin).0 + s.len() * c * c),
    decreases s.len(),
{
    let m = moments(s, origin);
    let n = s.len() as int;
    let wide = 2 * limit;
    if n == 0 {
        assert(0 * c * w == 0 && 0 * c * c == 0 && c * 0 == 0 && w * 0 == 0 && 2 * c * 0 == 0 && wide * 0 == 0)
            by (nonlinear_arith);
    } else {
        let head = s.drop_last();
        assert forall|i: int| 0 <= i < head.len() implies -limit <= (#[trigger] head[i]).value <= limit by {
            assert(head[i] == s[i]);
        }
        lemma_shifted_products(head, origin, c, w, limit);
        let h = moments(head, origin);
        let t = s.last().day - origin;
        let v = s.last().value as int;
        let k = head.len() as int;
        assert(s.last() == s[n - 1]);
        let a = t - c;
        let b = v - w;
        let xh = h.3 - c * h.2 - w * h.0 + k * c * w;
        let qh = h.1 - 2 * c * h.0 + k * c * c;
        assert(m.3 - c * m.2 - w * m.0 + n * c * w == xh + a * b) by (nonlinear_arith)
            requires
                m.0 == h.0 + t,
                m.2 == h.2 + v,
                m.3 == h.3 + t * v,
                n == k + 1,
                a == t - c,
                b == v - w,
                xh == h.3 - c * h.2 - w * h.0 + k * c * w,
        ;
        assert(m.1 - 2 * c * m.0 + n * c * c == qh + a * a) by (nonlinear_arith)
            requires
                m.0 == h.0 + t,
                m.1 == h.1 + t * t,
                n == k + 1,
                a == t - c,
                qh == h.1 - 2 * c * h.0 + k * c * c,
        ;
        lemma_product_bound(a, b, magnitude(a), wide);
        assert(magnitude(a) * wide <= wide * (a * a)) by (nonlinear_arith)
            requires
                wide >= 0,
        {
            assert(magnitude(a) <= a * a);
        }
        assert(wide * (qh + a * a) == wide * qh + wide * (a * a)) by (nonlinear_arith);
    }
}

/// Adding a sample adds `Σ (t − t_new)(v − v_new)` to the joint spread.
proof fn lemma_joint_step(s: Seq<Sample>, origin: int)
    requires
        s.len() > 0,
    ensures
        joint_from(s, origin) == joint_from(s.drop_last(), origin) + (moments(s.drop_last(), origin).3 - (
        s.last().day - origin) * moments(s.drop_last(), origin).2 - s.last().value * moments(
            s.drop_last(),
            origin,
        ).0 + s.drop_last().len() * (s.last().day - origin) * s.last().value),
{
    let head = s.drop_last();
    let m = moments(s, origin);
    let h = moments(head, origin);
    let t = s.last().day - origin;
    let v = s.last().value as int;
    let k = head.len() as int;
    let n = s.len() as int;
    let tv = t * v;
    assert(n * m.3 == k * h.3 + h.3 + k * tv + tv) by (nonlinear_arith)
        requires
            m.3 == h.3 + tv,
            n == k + 1,
    ;
    assert(m.0 * m.2 == h.0 * h.2 + v * h.0 + t * h.2 + tv) by (nonlinear_arith)
        requires
            m.0 == h.0 + t,
            m.2 == h.2 + v,
            tv == t * v,
    ;
    assert(k * t * v == k * tv) by (nonlinear_arith)
        requires
            tv == t * v,
    ;
}

/// Values within `limit` keep the joint spread within `2 · limit` times the
/// spread of the days.
pub proof fn lemma_joint_bounded(s: Seq<Sample>, origin: int, limit: int)
    requires
        limit >= 0,
        forall|i: int| 0 <= i < s.len() ==> -limit <= (#[trigger] s[i]).value <= limit,
    ensures
        magnitude(joint_from(s, origin)) <= 2 * limit * spread_from(s, origin),
    decreases s.len(),
{
    let wide = 2 * limit;
    if s.len() == 0 {
        assert(0 * 0 == 0 && wide * 0 == 0) by (nonlinear_arith);
    } else {
        let head = s.drop_last();
        assert forall|i: int| 0 <= i < head.len() implies -limit <= (#[trigger] head[i]).value <= limit by {
            assert(head[i] == s[i]);
        }
        assert(s.last() == s[s.len() - 1]);
        lemma_joint_bounded(head, origin, limit);
        lemma_joint_step(s, origin);
        lemma_spread_step(s, origin);
        let t = s.last().day - origin;
        let v = s.last().value as int;
        lemma_shifted_products(head, origin, t, v, limit);
        let h = moments(head, origin);
        let q = h.1 - 2 * t * h.0 + head.len() * t * t;
        assert(wide * (spread_from(head, origin) + q) == wide * spread_from(head, origin) + wide * q)
            by (nonlinear_arith);
    }
}

/// The line fitted to an admissible window with two samples or more has a
/// slope within `SLOPE_LIMIT` and an intercept within `ORIGIN_LIMIT`: it is
/// the line that the formulas give, and it fits the machine's integers.
pub proof fn lemma_fitted_line_within_limits(s: Seq<Sample>)
    requires
        series_ok(s),
        s.len() >= 2,
    ensures
        day_spread(s) > 0,
        line_ok(slope_of(s), intercept_of(s)),
        line_fit(s) == Ok::<(i64, i64), FitError>((slope_of(s) as i64, intercept_of(s) as i64)),
{
    let origin = first_day(s);
    let n = s.len() as int;
    let m = moments(s, origin);
    lemma_degenerate_iff_one_day(s);
    lemma_spread_not_negative(s, origin);
    lemma_joint_bounded(s, origin, 1_000_000_000_000);
    let d = day_spread(s);
    assert(2 * 1_000_000_000_000 * d == d * 2_000_000_000_000) by (nonlinear_arith);
    lemma_quotient_within(joint_spread(s), d, 2_000_000_000_000);
    let slope = slope_of(s);
    lemma_moment_bounds(s);
    lemma_product_bound(slope, m.0, 2_000_000_000_000, n * 16_384);
    lemma_quotient_within(m.2 - slope * m.0, n, 32_769_000_000_000_000);
}

/// The sums of an admissible window are bounded by its length.
proof fn lemma_moment_bounds(s: Seq<Sample>)
    requires
        series_ok(s),
    ensures
        0 <= moments(s, first_day(s)).0 <= s.len() * 16_384,
        -(s.len() * 1_000_000_000_000) <= moments(s, first_day(s)).2 <= s.len() * 1_000_000_000_000,
{
    if s.len() > 0 {
        assert forall|i: int| 0 <= i < s.len() implies 0 <= (#[trigger] s[i]).day - s[0].day < 16_384 by {
            lemma_days_spread(s, i);
        }
        lemma_moment_bounds_from(s, first_day(s));
    }
}

proof fn lemma_moment_bounds_from(s: Seq<Sample>, origin: int)
    requires
        forall|i: int| 0 <= i < s.len() ==> 0 <= (#[trigger] s[i]).day - origin < 16_384,
        forall|i: int| 0 <= i < s.len() ==> -1_000_000_000_000 <= (#[trigger] s[i]).value <= 1_000_000_000_000,
    ensures
        0 <= moments(s, origin).0 <= s.len() * 16_384,
        -(s.len() * 1_000_000_000_000) <= moments(s, origin).2 <= s.len() * 1_000_000_000_000,
    decreases s.len(),
{
    if s.len() > 0 {
        let head = s.drop_last();
        assert forall|i: int| 0 <= i < head.len() implies 0 <= (#[trigger] head[i]).day - origin < 16_384 by {
            assert(head[i] == s[i]);
        }
        assert forall|i: int| 0 <= i < head.len() implies -1_000_000_000_000 <= (#[trigger] head[i]).value
            <= 1_000_000_000_000 by {
            assert(head[i] == s[i]);
        }
        lemma_moment_bounds_from(head, origin);
        assert(s.last() == s[s.len() - 1]);
    }
}

/// A squared error is never negative.
pub proof fn lemma_error_not_negative(s: Seq<Sample>, origin: int, slope: int, intercept: int)
    ensures
        squared_error(s, origin, slope, intercept) >= 0,
    decreases s.len(),
{
    if s.len() > 0 {
        lemma_error_not_negative(s.drop_last(), origin, slope, intercept);
        let r = residual(s.last(), origin, slope, intercept);
        assert(r * r >= 0) by (nonlinear_arith);
    }
}

/// The squared error of values that all lie within `eps` of a line is at
/// most `n · eps²`.
pub proof fn lemma_error_within(s: Seq<Sample>, origin: int, slope: int, intercept: int, eps: int)
    requires
        eps >= 0,
        forall|i: int| 0 <= i < s.len() ==> magnitude(residual(#[trigger] s[i], origin, slope, intercept)) <= eps,
    ensures
        squared_error(s, origin, slope, intercept) <= s.len() * (eps * eps),
    decreases s.len(),
{
    let square = eps * eps;
    if s.len() == 0 {
        assert(0 * square == 0) by (nonlinear_arith);
    } else {
        let head = s.drop_last();
        assert forall|i: int| 0 <= i < head.len() implies magnitude(
            residual(#[trigger] head[i], origin, slope, intercept),
        ) <= eps by {
            assert(head[i] == s[i]);
        }
        lemma_error_within(head, origin, slope, intercept, eps);
        assert(s.last() == s[s.len() - 1]);
        let r = residual(s.last(), origin, slope, intercept);
        lemma_product_bound(r, r, eps, eps);
        assert((head.len() + 1) * square == head.len() * square + square) by (nonlinear_arith);
    }
}

/// The deviation of an admissible window about a line within the limits is
/// within `RESIDUAL_LIMIT`: it is the value that the formula gives, and it
/// fits the machine's integers.
pub proof fn lemma_deviation_within_limit(s: Seq<Sample>, slope: int, intercept: int)
    requires
        series_ok(s),
        line_ok(slope, intercept),
    ensures
        0 <= deviation(s, slope, intercept) <= RESIDUAL_LIMIT,
{
    if s.len() > 0 {
        let origin = first_day(s);
        let n = s.len() as int;
        assert forall|i: int| 0 <= i < s.len() implies magnitude(
            residual(#[trigger] s[i], origin, slope, intercept),
        ) <= 65_538_000_000_000_000 by {
            lemma_days_spread(s, i);
            lemma_product_bound(slope, s[i].day - origin, 2_000_000_000_000, 16_384);
        }
        lemma_error_within(s, origin, slope, intercept, 65_538_000_000_000_000);
        lemma_error_not_negative(s, origin, slope, intercept);
        let total = squared_error(s, origin, slope, intercept);
        let mean = total / n;
        assert(0 <= mean <= 65_538_000_000_000_000int * 65_538_000_000_000_000) by (nonlinear_arith)
            requires
                mean == total / n,
                n > 0,
                0 <= total <= n * (65_538_000_000_000_000int * 65_538_000_000_000_000),
        ;
        lemma_int_sqrt_bounds(mean as nat);
        let root = int_sqrt(mean as nat);
        assert(root <= 65_538_000_000_000_000) by (nonlinear_arith)
            requires
                root * root <= 65_538_000_000_000_000int * 65_538_000_000_000_000,
                root >= 0,
        {
            if root > 65_538_000_000_000_000 {
                assert(root * root >= 65_538_000_000_000_001 * 65_538_000_000_000_001);
            }
        }
    }
}

/// The window of `[start, end]` in an admissible series is admissible.
pub proof fn lemma_window_ok(s: Seq<Sample>, start: int, end: int)
    requires
        series_ok(s),
    ensures
        series_ok(window(s, start, end)),
{
    lemma_first_from_bounds(s, start, 0);
    lemma_first_from_bounds(s, end + 1, index_of_day(s, start));
    lemma_subrange_ok(s, index_of_day(s, start), index_past_day(s, index_of_day(s, start), end));
}

/// A window that holds two samples of an admissible series can be fitted.
pub proof fn lemma_window_fit_succeeds(s: Seq<Sample>, start: u32, end: u32, i: int, j: int)
    requires
        series_ok(s),
        0 <= i < j < s.len(),
        start <= s[i].day,
        s[j].day <= end,
    ensures
        window(s, start as int, end as int).len() >= 2,
        trend_over(s, start, end) is Ok,
{
    lemma_window_holds_the_days(s, start as int, end as int);
    assert(s[i].day < s[j].day);
    lemma_window_ok(s, start as int, end as int);
    lemma_fitted_line_within_limits(window(s, start as int, end as int));
}

proof fn lemma_quotient_bound(a: int, b: int)
    by (nonlinear_arith)
    requires
        a >= 0,
        b > 0,
    ensures
        0 <= a / b <= a,
{
}

proof fn lemma_quotient_within(a: int, n: int, c: int)
    by (nonlinear_arith)
    requires
        n > 0,
        c >= 0,
        -(n * c) <= a <= n * c,
    ensures
        -c <= quotient(a, n) <= c,
{
    if a >= 0 {
        assert(a / n <= c);
    } else {
        assert((-a) / n <= c);
    }
}

fn div_toward_zero(a: i128, b: i128) -> (q: i128)
    requires
        b > 0,
        a > i128::MIN,
    ensures
        q == quotient(a as int, b as int),
        magnitude(q as int) <= magnitude(a as int),
{
    if a >= 0 {
        proof {
            lemma_quotient_bound(a as int, b as int);
        }
        ((a as u128) / (b as u128)) as i128
    } else {
        proof {
            lemma_quotient_bound(-a as int, b as int);
        }
        -((((-a) as u128) / (b as u128)) as i128)
    }
}

/// Facts about a window `[lo, hi)` of an admissible series that the loops
/// below rely on.
proof fn lemma_window_facts(s: Seq<Sample>, lo: int, hi: int)
    requires
        series_ok(s),
        0 <= lo < hi <= s.len(),
    ensures
        hi - lo <= SPAN_LIMIT as int,
        forall|j: int| lo <= j < hi ==> 0 <= (#[trigger] s[j]).day - s[lo].day < SPAN_LIMIT as int,
{
    let w = s.subrange(lo, hi);
    lemma_subrange_ok(s, lo, hi);
    lemma_days_spread(w, 0);
    assert forall|j: int| lo <= j < hi implies 0 <= (#[trigger] s[j]).day - s[lo].day < SPAN_LIMIT as int by {
        lemma_days_spread(w, j - lo);
        assert(w[j - lo] == s[j]);
        assert(w[0] == s[lo]);
    }
}

/// The least-squares line through the samples at positions `[lo, hi)`.
pub fn fit_range(series: &Vec<Sample>, lo: usize, hi: usize) -> (fit: Result<(i64, i64), FitError>)
    requires
        series_ok(series@),
        lo <= hi <= series.len(),
    ensures
        fit == line_fit(series@.subrange(lo as int, hi as int)),
        fit is Ok <==> hi - lo >= 2,
        fit matches Ok(line) ==> line_ok(line.0 as int, line.1 as int),
{
    proof {
        lemma_subrange_ok(series@, lo as int, hi as int);
        lemma_degenerate_iff_one_day(series@.subrange(lo as int, hi as int));
    }
    if hi - lo < 2 {
        Err(FitError::DegenerateFit)
    } else {
        Ok(fit_window(series, lo, hi))
    }
}

/// The least-squares line through the two or more samples at positions
/// `[lo, hi)`.
pub fn fit_window(series: &Vec<Sample>, lo: usize, hi: usize) -> (line: (i64, i64))
    requires
        series_ok(series@),
        lo + 2 <= hi <= series.len(),
    ensures
        line_fit(series@.subrange(lo as int, hi as int)) == Ok::<(i64, i64), FitError>(line),
        line_ok(line.0 as int, line.1 as int),
{
    let ghost w = series@.subrange(lo as int, hi as int);
    let origin: u32 = series[lo].day;
    assert(w[0] == series@[lo as int]);
    proof {
        lemma_window_facts(series@, lo as int, hi as int);
    }
    let mut st: i128 = 0;
    let mut stt: i128 = 0;
    let mut sv: i128 = 0;
    let mut stv: i128 = 0;
    let mut k: usize = lo;
    assert(series@.subrange(lo as int, lo as int) =~= Seq::<Sample>::empty());
    while k < hi
        invariant
            series_ok(series@),
            lo <= k <= hi <= series.len(),
            hi - lo <= 16_384,
            forall|j: int| lo <= j < hi ==> 0 <= (#[trigger] series@[j]).day - origin < 16_384,
            (st as int, stt as int, sv as int, stv as int) == moments(series@.subrange(lo as int, k as int), origin as int),
            0 <= st <= (k - lo) * 16_384,
            0 <= stt <= (k - lo) * 268_435_456,
            -((k - lo) * 1_000_000_000_000) <= sv <= (k - lo) * 1_000_000_000_000,
            -((k - lo) * 16_384_000_000_000_000) <= stv <= (k - lo) * 16_384_000_000_000_000,
        decreases hi - k,
    {
        let p: Sample = series[k];
        assert(0 <= series@[k as int].day - origin < 16_384);
        let t: i128 = (p.day - origin) as i128;
        let v: i128 = p.value as i128;
        proof {
            lemma_product_bound(t as int, t as int, 16_384, 16_384);
            lemma_product_bound(t as int, v as int, 16_384, 1_000_000_000_000);
            assert(t * t >= 0) by (nonlinear_arith);
            let next = series@.subrange(lo as int, k + 1);
            assert(next.drop_last() =~= series@.subrange(lo as int, k as int));
            assert(next.last() == p);
        }
        st = st + t;
        stt = stt + t * t;
        sv = sv + v;
        stv = stv + t * v;
        k = k + 1;
    }
    let n: i128 = (hi - lo) as i128;
    proof {
        lemma_product_bound(n as int, stt as int, 16_384, 4_398_046_511_104);
        lemma_product_bound(st as int, st as int, 268_435_456, 268_435_456);
        lemma_product_bound(n as int, stv as int, 16_384, 268_435_456_000_000_000_000);
        lemma_product_bound(st as int, sv as int, 268_435_456, 16_384_000_000_000_000);
    }
    let spread: i128 = n * stt - st * st;
    let joint: i128 = n * stv - st * sv;
    proof {
        lemma_subrange_ok(series@, lo as int, hi as int);
        lemma_fitted_line_within_limits(w);
    }
    let slope: i128 = div_toward_zero(joint, spread);
    proof {
        lemma_product_bound(slope as int, st as int, 2_000_000_000_000, n * 16_384);
        lemma_quotient_within(sv - slope * st, n as int, 32_769_000_000_000_000);
    }
    let intercept: i128 = div_toward_zero(sv - slope * st, n);
    (slope as i64, intercept as i64)
}

/// The least-squares line through a series, as `(slope, intercept)` with the
/// intercept taken on the day of the first sample.
pub fn calculate_single_lobf(entries: &Vec<Sample>) -> (fit: Result<(i64, i64), FitError>)
    requires
        series_ok(entries@),
    ensures
        fit == line_fit(entries@),
        fit matches Ok(line) ==> line_ok(line.0 as int, line.1 as int),
{
    assert(entries@.subrange(0, entries@.len() as int) =~= entries@);
    fit_range(entries, 0, entries.len())
}

/// The residual standard deviation of the samples at positions `[lo, hi)`
/// about a line whose origin is the day of the first of them.
pub fn deviation_range(series: &Vec<Sample>, lo: usize, hi: usize, slope: i64, intercept: i64) -> (dev: i64)
    requires
        series_ok(series@),
        lo <= hi <= series.len(),
        line_ok(slope as int, intercept as int),
    ensures
        dev == deviation(series@.subrange(lo as int, hi as int), slope as int, intercept as int),
        0 <= dev <= RESIDUAL_LIMIT,
{
    let ghost w = series@.subrange(lo as int, hi as int);
    if lo == hi {
        return 0;
    }
    let origin: u32 = series[lo].day;
    assert(w[0] == series@[lo as int]);
    proof {
        lemma_window_facts(series@, lo as int, hi as int);
    }
    let mut total: u128 = 0;
    let mut k: usize = lo;
    assert(series@.subrange(lo as int, lo as int) =~= Seq::<Sample>::empty());
    while k < hi
        invariant
            series_ok(series@),
            line_ok(slope as int, intercept as int),
            lo <= k <= hi <= series.len(),
            hi - lo <= 16_384,
            forall|j: int| lo <= j < hi ==> 0 <= (#[trigger] series@[j]).day - origin < 16_384,
            total == squared_error(series@.subrange(lo as int, k as int), origin as int, slope as int, intercept as int),
            0 <= total <= (k - lo) * 4_295_229_444_000_000_000_000_000_000_000_000,
        decreases hi - k,
    {
        let p: Sample = series[k];
        assert(0 <= series@[k as int].day - origin < 16_384);
        let t: i128 = (p.day - origin) as i128;
        proof {
            lemma_product_bound(slope as int, t as int, 2_000_000_000_000, 16_384);
        }
        let r: i128 = p.value as i128 - (intercept as i128 + slope as i128 * t);
        proof {
            lemma_product_bound(r as int, r as int, 65_538_000_000_000_000, 65_538_000_000_000_000);
            assert(r * r >= 0) by (nonlinear_arith);
            let next = series@.subrange(lo as int, k + 1);
            assert(next.drop_last() =~= series@.subrange(lo as int, k as int));
            assert(next.last() == p);
            assert(r == residual(p, origin as int, slope as int, intercept as int));
        }
        total = total + (r * r) as u128;
        k = k + 1;
    }
    let n: u128 = (hi - lo) as u128;
    let mean: u128 = total / n;
    let root: u64 = isqrt(mean);
    assert(root <= 65_538_000_000_000_000) by (nonlinear_arith)
        requires
            root * root <= mean,
            mean == total / n,
            0 < n,
            total <= n * 4_295_229_444_000_000_000_000_000_000_000_000,
    {
        assert(mean <= 4_295_229_444_000_000_000_000_000_000_000_000);
        if root > 65_538_000_000_000_000 {
            assert(root * root >= 65_538_000_000_000_001 * 65_538_000_000_000_001);
        }
    }
    root as i64
}

/// The residual standard deviation of a series about a line whose origin is
/// the day of the first sample.
pub fn calculate_std_dev(entries: &Vec<Sample>, slope: i64, intercept: i64) -> (dev: i64)
    requires
        series_ok(entries@),
        line_ok(slope as int, intercept as int),
    ensures
        dev == deviation(entries@, slope as int, intercept as int),
        0 <= dev <= RESIDUAL_LIMIT,
{
    assert(entries@.subrange(0, entries@.len() as int) =~= entries@);
    deviation_range(entries, 0, entries.len(), slope, intercept)
}

/// Fits a trend to the samples whose day lies in `[start_date, end_date]`;
/// fails where fewer than two samples lie there.
pub fn find_trends(series: &Vec<Sample>, start_date: u32, end_date: u32) -> (found: Result<Trend, FitError>)
    requires
        series_ok(series@),
    ensures
        found == trend_over(series@, start_date, end_date),
        found is Ok <==> window(series@, start_date as int, end_date as int).len() >= 2,
        found matches Ok(trend) ==> trend.wf(),
{
    if count_entries(series, start_date, end_date) < 2 {
        proof {
            let w = window(series@, start_date as int, end_date as int);
            lemma_window_ok(series@, start_date as int, end_date as int);
            lemma_degenerate_iff_one_day(w);
        }
        Err(FitError::DegenerateFit)
    } else {
        Ok(fit_trend(series, start_date, end_date))
    }
}

/// Fits a trend to the two or more samples whose day lies in
/// `[start_date, end_date]`.
pub fn fit_trend(series: &Vec<Sample>, start_date: u32, end_date: u32) -> (trend: Trend)
    requires
        series_ok(series@),
        window(series@, start_date as int, end_date as int).len() >= 2,
    ensures
        trend_over(series@, start_date, end_date) == Ok::<Trend, FitError>(trend),
        trend.wf(),
        trend.start == start_date,
        trend.end == end_date,
{
    let lo: usize = find_from(series, start_date as u64, 0);
    let hi: usize = find_from(series, end_date as u64 + 1, lo);
    let line: (i64, i64) = fit_window(series, lo, hi);
    let stddev: i64 = deviation_range(series, lo, hi, line.0, line.1);
    proof {
        lemma_first_from_bounds(series@, start_date as int, 0);
        lemma_first_from_bounds(series@, end_date + 1, lo as int);
        assert(series@[lo as int].day >= start_date);
        assert(series@[hi - 1].day < end_date + 1);
        assert(series@[lo as int].day < series@[hi - 1].day);
    }
    Trend { start: start_date, end: end_date, orig_val: line.1, slope: line.0, stddev }
}

} // verus!
