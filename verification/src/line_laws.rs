//! What holds of every fitted line.

use vstd::prelude::*;
use vstd::arithmetic::div_mod::{lemma_div_multiples_vanish, lemma_fundamental_div_mod, lemma_mod_bound};
use crate::util::{Sample, FitError, line_ok, magnitude, lemma_product_bound, SLOPE_LIMIT};
use crate::series::series_ok;
use crate::root::{int_sqrt, lemma_int_sqrt_bounds};
use crate::fit::{
    moments, first_day, day_spread, joint_spread, quotient, slope_of, intercept_of, line_fit, residual,
    squared_error, deviation, lemma_degenerate_iff_one_day, lemma_spread_not_negative, lemma_error_within,
    lemma_error_not_negative,
};

verus! {

/// `Σ (n t − T)(n v − c)`: `n²` times the sum of the products of the
/// deviations of the days from their mean `T / n` and of the values from any
/// level `c / n`.
pub open spec fn centered_products(s: Seq<Sample>, origin: int, n: int, total: int, c: int) -> int
    decreases s.len(),
{
    if s.len() == 0 {
        0
    } else {
        centered_products(s.drop_last(), origin, n, total, c) + (n * (s.last().day - origin) - total) * (n
            * s.last().value - c)
    }
}

/// `Σ (n t − T)²`: `n²` times the sum of the squared deviations of the days
/// from their mean.
pub open spec fn centered_squares(s: Seq<Sample>, origin: int, n: int, total: int) -> int
    decreases s.len(),
{
    if s.len() == 0 {
        0
    } else {
        centered_squares(s.drop_last(), origin, n, total) + (n * (s.last().day - origin) - total) * (n * (
        s.last().day - origin) - total)
    }
}

proof fn lemma_expand(a: int, b: int, x: int, y: int)
    by (nonlinear_arith)
    ensures
        (a - b) * (x - y) == a * x - a * y - b * x + b * y,
{
}

proof fn lemma_regroup(n: int, t: int, m: int, v: int)
    by (nonlinear_arith)
    ensures
        (n * t) * (m * v) == (n * m) * (t * v),
        (n * t) * m == (n * m) * t,
        m * (n * t) == (n * m) * t,
{
}

proof fn lemma_spread_out(a: int, x: int, y: int)
    by (nonlinear_arith)
    ensures
        a * (x + y) == a * x + a * y,
        (x + 1) * a == x * a + a,
{
}

proof fn lemma_pull_out(a: int, b: int, c: int)
    by (nonlinear_arith)
    ensures
        (a * b) * c == a * (b * c),
        (a * b) * c == a * (c * b),
{
}

proof fn lemma_take_apart(a: int, x: int, y: int)
    by (nonlinear_arith)
    ensures
        a * (x - y) == a * x - a * y,
{
}

proof fn lemma_centered_sums(s: Seq<Sample>, origin: int, n: int, total: int, c: int)
    ensures
        centered_products(s, origin, n, total, c) == (n * n) * moments(s, origin).3 - (n * c) * moments(
            s,
            origin,
        ).0 - (n * total) * moments(s, origin).2 + s.len() * (total * c),
        centered_squares(s, origin, n, total) == (n * n) * moments(s, origin).1 - 2 * ((n * total) * moments(
            s,
            origin,
        ).0) + s.len() * (total * total),
    decreases s.len(),
{
    let nn = n * n;
    let nc = n * c;
    let nt = n * total;
    if s.len() == 0 {
        lemma_spread_out(nn, 0, 0);
        lemma_spread_out(nc, 0, 0);
        lemma_spread_out(nt, 0, 0);
        lemma_spread_out(0, total * c, 0);
        lemma_spread_out(0, total * total, 0);
    } else {
        let head = s.drop_last();
        lemma_centered_sums(head, origin, n, total, c);
        let m = moments(s, origin);
        let h = moments(head, origin);
        let t = s.last().day - origin;
        let v = s.last().value as int;
        let k = head.len() as int;
        lemma_expand(n * t, total, n * v, c);
        lemma_regroup(n, t, n, v);
        lemma_regroup(n, t, c, 0);
        lemma_regroup(n, v, total, 0);
        lemma_expand(n * t, total, n * t, total);
        lemma_regroup(n, t, n, t);
        lemma_regroup(n, t, total, 0);
        lemma_spread_out(nn, h.3, t * v);
        lemma_spread_out(nn, h.1, t * t);
        lemma_spread_out(nc, h.0, t);
        lemma_spread_out(nt, h.0, t);
        lemma_spread_out(nt, h.2, v);
        lemma_spread_out(total * c, k, 0);
        lemma_spread_out(total * total, k, 0);
    }
}

/// The slope is the quotient of `Σ(t − t̄)(v − c)` by `Σ(t − t̄)²` whatever
/// level `c` the values are measured from: the mean of the values, the mean
/// of the days or zero all give the same numerator, because the deviations
/// of the days from their mean sum to zero. Both sums are stated here times
/// `n²`, which leaves their quotient as it is.
pub proof fn lemma_slope_ignores_level(s: Seq<Sample>, c: int)
    ensures
        centered_products(s, first_day(s), s.len() as int, moments(s, first_day(s)).0, c) == s.len()
            * joint_spread(s),
        centered_squares(s, first_day(s), s.len() as int, moments(s, first_day(s)).0) == s.len() * day_spread(s),
{
    let origin = first_day(s);
    let n = s.len() as int;
    let m = moments(s, origin);
    lemma_centered_sums(s, origin, n, m.0, c);
    lemma_pull_out(n, n, m.3);
    lemma_pull_out(n, c, m.0);
    lemma_pull_out(n, m.0, m.2);
    lemma_pull_out(n, n, m.1);
    lemma_pull_out(n, m.0, m.0);
    lemma_take_apart(n, n * m.3, m.0 * m.2);
    lemma_take_apart(n, n * m.1, m.0 * m.0);
}

proof fn lemma_moments_on_line(s: Seq<Sample>, origin: int, slope: int, intercept: int)
    requires
        forall|i: int| 0 <= i < s.len() ==> (#[trigger] s[i]).value == intercept + slope * (s[i].day - origin),
    ensures
        moments(s, origin).2 == s.len() * intercept + slope * moments(s, origin).0,
        moments(s, origin).3 == intercept * moments(s, origin).0 + slope * moments(s, origin).1,
        squared_error(s, origin, slope, intercept) == 0,
    decreases s.len(),
{
    if s.len() == 0 {
        assert(0 * intercept + slope * 0 == 0 && intercept * 0 + slope * 0 == 0) by (nonlinear_arith);
    } else {
        let head = s.drop_last();
        assert forall|i: int| 0 <= i < head.len() implies (#[trigger] head[i]).value == intercept + slope * (
        head[i].day - origin) by {
            assert(head[i] == s[i]);
        }
        lemma_moments_on_line(head, origin, slope, intercept);
        let m = moments(s, origin);
        let h = moments(head, origin);
        let t = s.last().day - origin;
        let v = s.last().value as int;
        let k = head.len() as int;
        let len = s.len() as int;
        assert(s.last() == s[len - 1]);
        assert(v == intercept + slope * t);
        assert(m.2 == len * intercept + slope * m.0 && m.3 == intercept * m.0 + slope * m.1) by (nonlinear_arith)
            requires
                h.2 == k * intercept + slope * h.0,
                h.3 == intercept * h.0 + slope * h.1,
                m.0 == h.0 + t,
                m.1 == h.1 + t * t,
                m.2 == h.2 + v,
                m.3 == h.3 + t * v,
                v == intercept + slope * t,
                len == k + 1,
        ;
        let r = residual(s.last(), origin, slope, intercept);
        assert(r == 0);
        assert(r * r == 0) by (nonlinear_arith)
            requires
                r == 0,
        ;
    }
}

proof fn lemma_quotient_of_multiple(x: int, d: int)
    requires
        d > 0,
    ensures
        quotient(x * d, d) == x,
{
    if x >= 0 {
        assert(x * d >= 0) by (nonlinear_arith)
            requires
                x >= 0,
                d > 0,
        ;
        lemma_div_multiples_vanish(x, d);
        assert(d * x == x * d) by (nonlinear_arith);
    } else {
        assert(x * d < 0) by (nonlinear_arith)
            requires
                x < 0,
                d > 0,
        ;
        lemma_div_multiples_vanish(-x, d);
        assert(d * (-x) == -(x * d)) by (nonlinear_arith);
    }
}

/// Samples of at least two days that lie exactly on a line within the limits
/// give back that line, and deviate from it by nothing.
pub proof fn lemma_exact_line_is_recovered(s: Seq<Sample>, slope: int, intercept: int)
    requires
        series_ok(s),
        s.len() >= 2,
        line_ok(slope, intercept),
        forall|i: int| 0 <= i < s.len() ==> (#[trigger] s[i]).value == intercept + slope * (s[i].day - s[0].day),
    ensures
        line_fit(s) == Ok::<(i64, i64), FitError>((slope as i64, intercept as i64)),
        deviation(s, slope, intercept) == 0,
{
    let origin = first_day(s);
    let n = s.len() as int;
    let m = moments(s, origin);
    lemma_moments_on_line(s, origin, slope, intercept);
    lemma_degenerate_iff_one_day(s);
    lemma_spread_not_negative(s, origin);
    let d = day_spread(s);
    assert(joint_spread(s) == slope * d) by (nonlinear_arith)
        requires
            joint_spread(s) == n * m.3 - m.0 * m.2,
            d == n * m.1 - m.0 * m.0,
            m.2 == n * intercept + slope * m.0,
            m.3 == intercept * m.0 + slope * m.1,
    ;
    lemma_quotient_of_multiple(slope, d);
    assert(slope_of(s) == slope);
    assert(m.2 - slope * m.0 == intercept * n) by (nonlinear_arith)
        requires
            m.2 == n * intercept + slope * m.0,
    ;
    lemma_quotient_of_multiple(intercept, n);
    assert(intercept_of(s) == intercept);
    assert(0int / n == 0) by (nonlinear_arith)
        requires
            n > 0,
    ;
    assert(int_sqrt(0) == 0);
}

/// `Σ |n t − T|`: `n` times the sum of the distances of the days from their
/// mean.
pub open spec fn centered_weight(s: Seq<Sample>, origin: int, n: int, total: int) -> int
    decreases s.len(),
{
    if s.len() == 0 {
        0
    } else {
        centered_weight(s.drop_last(), origin, n, total) + magnitude(n * (s.last().day - origin) - total)
    }
}

/// How far `Σ (n t − T) v` lies from what it would be on the line
/// `v = a + b t`, over the sums of a window.
spec fn numerator_gap(s: Seq<Sample>, origin: int, n: int, total: int, a: int, b: int) -> int {
    let m = moments(s, origin);
    (n * m.3 - total * m.2) - a * (n * m.0 - total * s.len()) - b * (n * m.1 - total * m.0)
}

proof fn lemma_gap_step(n: int, total: int, a: int, b: int, t: int, v: int, k: int, h: (int, int, int, int))
    ensures
        ((n * (h.3 + t * v) - total * (h.2 + v)) - a * (n * (h.0 + t) - total * (k + 1)) - b * (n * (h.1 + t * t)
            - total * (h.0 + t))) == ((n * h.3 - total * h.2) - a * (n * h.0 - total * k) - b * (n * h.1 - total
            * h.0)) + (n * t - total) * (v - a - b * t),
{
    let c = n * t - total;
    lemma_spread_out(n, h.3, t * v);
    lemma_spread_out(total, h.2, v);
    lemma_spread_out(n, h.0, t);
    lemma_spread_out(total, k, 1);
    lemma_spread_out(n, h.1, t * t);
    lemma_spread_out(total, h.0, t);
    lemma_spread_out(a, n * h.0 - total * k, c);
    lemma_spread_out(b, n * h.1 - total * h.0, n * (t * t) - total * t);
    // c * (v - a - b t) = c v - c a - c (b t)
    lemma_take_apart(c, v, a + b * t);
    lemma_spread_out(c, a, b * t);
    lemma_pull_out(n, t, v);
    assert(c * v == n * (t * v) - total * v) by (nonlinear_arith)
        requires
            c == n * t - total,
            (n * t) * v == n * (t * v),
    ;
    assert(c * a == a * c) by (nonlinear_arith);
    assert(c * (b * t) == b * (n * (t * t) - total * t)) by (nonlinear_arith)
        requires
            c == n * t - total,
    ;
}

/// Values within `eps` of the line `v = a + b t` keep `Σ (n t − T) v` within
/// `eps · Σ |n t − T|` of its value on the line.
proof fn lemma_gap_bound(s: Seq<Sample>, origin: int, n: int, total: int, a: int, b: int, eps: int)
    requires
        eps >= 0,
        forall|i: int| 0 <= i < s.len() ==> magnitude((#[trigger] s[i]).value - (a + b * (s[i].day - origin))) <= eps,
    ensures
        magnitude(numerator_gap(s, origin, n, total, a, b)) <= eps * centered_weight(s, origin, n, total),
        centered_weight(s, origin, n, total) >= 0,
    decreases s.len(),
{
    if s.len() == 0 {
        lemma_spread_out(n, 0, 0);
        lemma_spread_out(total, 0, 0);
        lemma_spread_out(a, 0, 0);
        lemma_spread_out(b, 0, 0);
        lemma_spread_out(eps, 0, 0);
    } else {
        let head = s.drop_last();
        assert forall|i: int| 0 <= i < head.len() implies magnitude(
            (#[trigger] head[i]).value - (a + b * (head[i].day - origin)),
        ) <= eps by {
            assert(head[i] == s[i]);
        }
        lemma_gap_bound(head, origin, n, total, a, b, eps);
        let h = moments(head, origin);
        let t = s.last().day - origin;
        let v = s.last().value as int;
        let k = head.len() as int;
        assert(s.last() == s[s.len() - 1]);
        lemma_gap_step(n, total, a, b, t, v, k, h);
        let c = n * t - total;
        let e = v - a - b * t;
        assert(magnitude(e) <= eps);
        lemma_product_bound(c, e, magnitude(c), eps);
        lemma_spread_out(eps, centered_weight(head, origin, n, total), magnitude(c));
        assert(magnitude(c) * eps == eps * magnitude(c)) by (nonlinear_arith);
    }
}

proof fn lemma_quotient_is_near(x: int, d: int)
    requires
        d > 0,
    ensures
        magnitude(x - quotient(x, d) * d) < d,
{
    if x >= 0 {
        lemma_fundamental_div_mod(x, d);
        lemma_mod_bound(x, d);
        assert(d * (x / d) == (x / d) * d) by (nonlinear_arith);
    } else {
        lemma_fundamental_div_mod(-x, d);
        lemma_mod_bound(-x, d);
        let q = (-x) / d;
        assert((-q) * d == -(d * q)) by (nonlinear_arith);
    }
}

/// Noise moves the slope by little: where every value lies within `eps` of
/// the line `v = a + b t`, the fitted slope differs from `b` by at most
/// `eps · Σ|t − t̄| / Σ(t − t̄)²`, and by one more for the rounding. The
/// bound is stated times `Σ (n t − T)² / n`, the spread of the days.
pub proof fn lemma_noise_moves_slope_little(s: Seq<Sample>, a: int, b: int, eps: int)
    requires
        eps >= 0,
        day_spread(s) != 0,
        forall|i: int|
            0 <= i < s.len() ==> magnitude((#[trigger] s[i]).value - (a + b * (s[i].day - s[0].day))) <= eps,
    ensures
        day_spread(s) > 0,
        day_spread(s) * magnitude(slope_of(s) - b) <= eps * centered_weight(
            s,
            first_day(s),
            s.len() as int,
            moments(s, first_day(s)).0,
        ) + day_spread(s),
{
    let origin = first_day(s);
    let n = s.len() as int;
    let m = moments(s, origin);
    let d = day_spread(s);
    let w = centered_weight(s, origin, n, m.0);
    lemma_spread_not_negative(s, origin);
    lemma_gap_bound(s, origin, n, m.0, a, b, eps);
    let top = joint_spread(s);
    assert(n * m.0 - m.0 * n == 0) by (nonlinear_arith);
    lemma_spread_out(a, 0, 0);
    assert(numerator_gap(s, origin, n, m.0, a, b) == top - b * d);
    let q = slope_of(s);
    lemma_quotient_is_near(top, d);
    lemma_take_apart(d, q, b);
    assert(q * d == d * q && b * d == d * b) by (nonlinear_arith);
    assert(magnitude(d * (q - b)) <= eps * w + d);
    assert(d * magnitude(q - b) == magnitude(d * (q - b))) by (nonlinear_arith)
        requires
            d > 0,
    ;
}

spec fn days_sum(k: nat) -> int
    decreases k,
{
    if k == 0 { 0 } else { days_sum((k - 1) as nat) + (k - 1) }
}

spec fn days_square_sum(k: nat) -> int
    decreases k,
{
    if k == 0 { 0 } else { days_square_sum((k - 1) as nat) + (k - 1) * (k - 1) }
}

spec fn days_weight(k: nat) -> int
    decreases k,
{
    if k == 0 { 0 } else { days_weight((k - 1) as nat) + magnitude(16 * (k - 1) - 120) }
}

proof fn lemma_square_sum_closed(k: nat)
    ensures
        6 * days_square_sum(k) == (k - 1) * k * (2 * k - 1),
    decreases k,
{
    if k == 0 {
        assert((0 - 1) * 0 * (2 * 0 - 1) == 0) by (nonlinear_arith);
    } else {
        lemma_square_sum_closed((k - 1) as nat);
        let j = k - 1;
        assert((j - 1) * j * (2 * j - 1) + 6 * (j * j) == j * (j + 1) * (2 * (j + 1) - 1)) by (nonlinear_arith);
    }
}

proof fn lemma_consecutive_days(s: Seq<Sample>, origin: int)
    requires
        forall|i: int| 0 <= i < s.len() ==> (#[trigger] s[i]).day == origin + i,
    ensures
        moments(s, origin).0 == days_sum(s.len()),
        moments(s, origin).1 == days_square_sum(s.len()),
        centered_weight(s, origin, 16, 120) == days_weight(s.len()),
    decreases s.len(),
{
    if s.len() > 0 {
        let head = s.drop_last();
        assert forall|i: int| 0 <= i < head.len() implies (#[trigger] head[i]).day == origin + i by {
            assert(head[i] == s[i]);
        }
        lemma_consecutive_days(head, origin);
        assert(s.last() == s[s.len() - 1]);
    }
}

/// `Σ r`, the sum of the residuals about a line.
pub open spec fn residual_sum(s: Seq<Sample>, origin: int, slope: int, intercept: int) -> int
    decreases s.len(),
{
    if s.len() == 0 {
        0
    } else {
        residual_sum(s.drop_last(), origin, slope, intercept) + residual(s.last(), origin, slope, intercept)
    }
}

/// `Σ r t`, the sum of the residuals about a line, each times its day.
pub open spec fn residual_day_sum(s: Seq<Sample>, origin: int, slope: int, intercept: int) -> int
    decreases s.len(),
{
    if s.len() == 0 {
        0
    } else {
        residual_day_sum(s.drop_last(), origin, slope, intercept) + residual(
            s.last(),
            origin,
            slope,
            intercept,
        ) * (s.last().day - origin)
    }
}

proof fn lemma_residual_sums(s: Seq<Sample>, origin: int, slope: int, intercept: int)
    ensures
        residual_sum(s, origin, slope, intercept) == moments(s, origin).2 - s.len() * intercept - slope * moments(
            s,
            origin,
        ).0,
        residual_day_sum(s, origin, slope, intercept) == moments(s, origin).3 - intercept * moments(s, origin).0
            - slope * moments(s, origin).1,
    decreases s.len(),
{
    if s.len() == 0 {
        lemma_spread_out(intercept, 0, 0);
        lemma_spread_out(slope, 0, 0);
        lemma_spread_out(0, intercept, 0);
    } else {
        let head = s.drop_last();
        lemma_residual_sums(head, origin, slope, intercept);
        let h = moments(head, origin);
        let t = s.last().day - origin;
        let v = s.last().value as int;
        let k = head.len() as int;
        let r = residual(s.last(), origin, slope, intercept);
        lemma_spread_out(intercept, k, 0);
        lemma_spread_out(slope, h.0, t);
        lemma_spread_out(intercept, h.0, t);
        lemma_spread_out(slope, h.1, t * t);
        lemma_take_apart(t, v, intercept + slope * t);
        lemma_spread_out(t, intercept, slope * t);
        assert(r * t == t * r) by (nonlinear_arith);
        assert(t * v == v * t) by (nonlinear_arith);
        assert(t * intercept == intercept * t) by (nonlinear_arith);
        assert(t * (slope * t) == slope * (t * t)) by (nonlinear_arith);
    }
}

proof fn lemma_square_gain(r: int, g: int)
    by (nonlinear_arith)
    ensures
        (r + g) * (r + g) - r * r == 2 * (r * g) + g * g,
{
}

proof fn lemma_square_of_sum(x: int, y: int)
    by (nonlinear_arith)
    ensures
        (x + y) * (x + y) == x * x + 2 * (x * y) + y * y,
        (x + y) * (x + y) >= 0,
{
}

/// What one sample adds to the difference of the squared errors about two
/// lines that differ by `da` in intercept and by `db` in slope.
proof fn lemma_error_gain(r: int, t: int, da: int, db: int)
    ensures
        (r + (da + db * t)) * (r + (da + db * t)) - r * r == 2 * (da * r + db * (r * t)) + da * da + 2 * ((da * db)
            * t) + (db * db) * (t * t),
{
    let g = da + db * t;
    lemma_square_gain(r, g);
    lemma_spread_out(r, da, db * t);
    assert(r * da == da * r) by (nonlinear_arith);
    assert(r * (db * t) == db * (r * t)) by (nonlinear_arith);
    lemma_square_of_sum(da, db * t);
    assert(da * (db * t) == (da * db) * t) by (nonlinear_arith);
    assert((db * t) * (db * t) == (db * db) * (t * t)) by (nonlinear_arith);
}

/// The squared error about a second line exceeds that about a first by
/// `2 (Δa Σr + Δb Σrt) + Σ(Δa + Δb t)²`, with `r` the residuals about the
/// first line and `Δa`, `Δb` what the first line has more than the second.
proof fn lemma_error_difference(s: Seq<Sample>, origin: int, b1: int, a1: int, b2: int, a2: int)
    ensures
        squared_error(s, origin, b2, a2) - squared_error(s, origin, b1, a1) == 2 * ((a1 - a2) * residual_sum(
            s,
            origin,
            b1,
            a1,
        ) + (b1 - b2) * residual_day_sum(s, origin, b1, a1)) + s.len() * ((a1 - a2) * (a1 - a2)) + 2 * (((a1 - a2)
            * (b1 - b2)) * moments(s, origin).0) + ((b1 - b2) * (b1 - b2)) * moments(s, origin).1,
    decreases s.len(),
{
    let da = a1 - a2;
    let db = b1 - b2;
    if s.len() == 0 {
        lemma_spread_out(da, 0, 0);
        lemma_spread_out(db, 0, 0);
        lemma_spread_out(0, da * da, 0);
        lemma_spread_out(da * db, 0, 0);
        lemma_spread_out(db * db, 0, 0);
    } else {
        let head = s.drop_last();
        lemma_error_difference(head, origin, b1, a1, b2, a2);
        let h = moments(head, origin);
        let t = s.last().day - origin;
        let k = head.len() as int;
        let r = residual(s.last(), origin, b1, a1);
        let e = residual(s.last(), origin, b2, a2);
        lemma_spread_out(b1 - b2, t, 0);
        lemma_take_apart(t, b1, b2);
        assert(b1 * t == t * b1 && b2 * t == t * b2 && (b1 - b2) * t == t * (b1 - b2)) by (nonlinear_arith);
        assert(e == r + (da + db * t));
        lemma_error_gain(r, t, da, db);
        lemma_spread_out(da, residual_sum(head, origin, b1, a1), r);
        lemma_spread_out(db, residual_day_sum(head, origin, b1, a1), r * t);
        lemma_spread_out(da * da, k, 0);
        lemma_spread_out(da * db, h.0, t);
        lemma_spread_out(db * db, h.1, t * t);
        assert((k + 1) * (da * da) == k * (da * da) + da * da) by (nonlinear_arith);
    }
}

/// The algebra behind the law below, over the sums of a window: `p` and `q`
/// are what the two roundings of the fit leave over.
proof fn lemma_rounded_optimum(n: int, t: int, tt: int, d: int, da: int, db: int, p: int, q: int, rt: int)
    requires
        n > 0,
        d == n * tt - t * t,
        d > 0,
        n * rt == q + p * t,
        -n < p < n,
        -d < q < d,
    ensures
        n * (2 * (da * p + db * rt) + n * (da * da) + 2 * ((da * db) * t) + (db * db) * tt) > -(n * n) - d,
{
    let x = n * da + db * t;
    let whole = n * (2 * (da * p + db * rt) + n * (da * da) + 2 * ((da * db) * t) + (db * db) * tt);
    // the part with the residual sums
    lemma_spread_out(n, 2 * (da * p + db * rt), n * (da * da) + 2 * ((da * db) * t) + (db * db) * tt);
    lemma_spread_out(n, n * (da * da) + 2 * ((da * db) * t), (db * db) * tt);
    lemma_spread_out(n, n * (da * da), 2 * ((da * db) * t));
    lemma_spread_out(n, da * p + db * rt, da * p + db * rt);
    lemma_spread_out(n, da * p, db * rt);
    assert(n * (da * p) == p * (n * da)) by (nonlinear_arith);
    assert(n * (db * rt) == db * (n * rt)) by (nonlinear_arith);
    lemma_spread_out(db, q, p * t);
    assert(db * (p * t) == p * (db * t)) by (nonlinear_arith);
    lemma_spread_out(p, n * da, db * t);
    assert(n * (da * p + db * rt) == p * x + db * q);
    // the part with the squares
    lemma_square_of_sum(n * da, db * t);
    assert(n * (n * (da * da)) == (n * da) * (n * da)) by (nonlinear_arith);
    lemma_spread_out(n, (da * db) * t, (da * db) * t);
    assert(n * ((da * db) * t) == (n * da) * (db * t)) by (nonlinear_arith);
    assert(n * ((db * db) * tt) == (db * db) * (n * tt)) by (nonlinear_arith);
    assert((db * t) * (db * t) == (db * db) * (t * t)) by (nonlinear_arith);
    lemma_take_apart(db * db, n * tt, t * t);
    assert(whole == 2 * (p * x) + 2 * (db * q) + x * x + (db * db) * d);
    // completing the two squares
    lemma_square_of_sum(x, p);
    assert(x * p == p * x) by (nonlinear_arith);
    assert(p * p < n * n) by (nonlinear_arith)
        requires
            -n < p < n,
    ;
    assert(2 * (db * q) + (db * db) * d > -d) by (nonlinear_arith)
        requires
            d > 0,
            -d < q < d,
    {
        if db != 0 {
            assert(db * db >= 1);
            if db > 0 {
                assert(db * q > -(db * d));
                assert((db * db) * d - 2 * (db * d) == db * ((db - 2) * d));
            } else {
                assert(db * q > db * d);
                assert((db * db) * d + 2 * (db * d) == (-db) * ((-db - 2) * d));
            }
        }
    }
}

/// No line fits better than the fitted one, but for the rounding: the
/// squared error about the fitted line exceeds the squared error about any
/// other line by less than `n + Σ(t − t̄)²`. (Stated times `n`.)
pub proof fn lemma_fit_is_best(s: Seq<Sample>, slope: int, intercept: int)
    requires
        day_spread(s) != 0,
    ensures
        s.len() * squared_error(s, first_day(s), slope_of(s), intercept_of(s)) < s.len() * squared_error(
            s,
            first_day(s),
            slope,
            intercept,
        ) + s.len() * s.len() + day_spread(s),
{
    let origin = first_day(s);
    let n = s.len() as int;
    let m = moments(s, origin);
    let d = day_spread(s);
    let b1 = slope_of(s);
    let a1 = intercept_of(s);
    lemma_spread_not_negative(s, origin);
    if n == 0 {
        assert(0 * 0 == 0) by (nonlinear_arith);
        lemma_spread_out(0, m.1, 0);
    }
    assert(n > 0);
    lemma_residual_sums(s, origin, b1, a1);
    lemma_error_difference(s, origin, b1, a1, slope, intercept);
    let p = residual_sum(s, origin, b1, a1);
    let rt = residual_day_sum(s, origin, b1, a1);
    let top = joint_spread(s);
    lemma_quotient_is_near(top, d);
    let q = top - b1 * d;
    lemma_quotient_is_near(m.2 - b1 * m.0, n);
    assert(a1 * n == n * a1) by (nonlinear_arith);
    assert(p == (m.2 - b1 * m.0) - a1 * n);
    // n Σrt = q + p Σt
    lemma_spread_out(n, m.3 - a1 * m.0, -(b1 * m.1));
    lemma_take_apart(n, m.3, a1 * m.0);
    assert(n * (a1 * m.0) == (n * a1) * m.0) by (nonlinear_arith);
    assert(n * (-(b1 * m.1)) == -(b1 * (n * m.1))) by (nonlinear_arith);
    lemma_take_apart(b1, n * m.1, m.0 * m.0);
    assert((m.2 - b1 * m.0 - p) * m.0 == m.2 * m.0 - b1 * (m.0 * m.0) - p * m.0) by (nonlinear_arith);
    assert(m.2 * m.0 == m.0 * m.2) by (nonlinear_arith);
    assert(n * rt == q + p * m.0);
    lemma_rounded_optimum(n, m.0, m.1, d, a1 - intercept, b1 - slope, p, q, rt);
    let gain = squared_error(s, origin, slope, intercept) - squared_error(s, origin, b1, a1);
    lemma_take_apart(n, squared_error(s, origin, slope, intercept), squared_error(s, origin, b1, a1));
    assert(n * gain > -(n * n) - d);
}

/// Sixteen consecutive days whose values lie within a twentieth of a unit of
/// a line give a slope within a hundredth of a unit per day of that line's,
/// and a deviation of no more than a twentieth of a unit.
pub proof fn lemma_sixteen_days_tolerate_noise(s: Seq<Sample>, a: int, b: int)
    requires
        s.len() == 16,
        forall|i: int| 0 <= i < 16 ==> (#[trigger] s[i]).day == s[0].day + i,
        forall|i: int| 0 <= i < 16 ==> magnitude((#[trigger] s[i]).value - (a + b * i)) <= 50_000,
    ensures
        day_spread(s) == 5440,
        magnitude(slope_of(s) - b) < 10_000,
        0 <= deviation(s, slope_of(s), intercept_of(s)) <= 50_000,
        magnitude(b) + 10_000 <= SLOPE_LIMIT ==> line_fit(s) == Ok::<(i64, i64), FitError>(
            (slope_of(s) as i64, intercept_of(s) as i64),
        ),
{
    let origin = first_day(s);
    lemma_consecutive_days(s, origin);
    reveal_with_fuel(days_sum, 17);
    reveal_with_fuel(days_weight, 17);
    assert(days_sum(16) == 120);
    let k: nat = 16;
    lemma_square_sum_closed(k);
    assert((k - 1) * k * (2 * k - 1) == 7440) by (nonlinear_arith)
        requires
            k == 16,
    ;
    assert(days_square_sum(16) == 1240);
    assert(days_weight(16) == 1024);
    assert forall|i: int| 0 <= i < s.len() implies magnitude(
        (#[trigger] s[i]).value - (a + b * (s[i].day - s[0].day)),
    ) <= 50_000 by {
        assert(s[i].day - s[0].day == i);
    }
    lemma_noise_moves_slope_little(s, a, b, 50_000);
    let gap = magnitude(slope_of(s) - b);
    assert(5440 * gap <= 50_000 * 1024 + 5440);
    // the deviation
    assert forall|i: int| 0 <= i < s.len() implies magnitude(residual(#[trigger] s[i], origin, b, a)) <= 50_000 by {
        assert(s[i].day - origin == i);
    }
    lemma_error_within(s, origin, b, a, 50_000);
    lemma_fit_is_best(s, b, a);
    let fitted = squared_error(s, origin, slope_of(s), intercept_of(s));
    lemma_error_not_negative(s, origin, slope_of(s), intercept_of(s));
    assert(16 * fitted < 16 * (16 * (50_000int * 50_000)) + 16 * 16 + 5440);
    let mean = fitted / 16;
    assert(0 <= mean <= 2_500_000_022);
    lemma_int_sqrt_bounds(mean as nat);
    let root = int_sqrt(mean as nat);
    assert(root <= 50_000) by (nonlinear_arith)
        requires
            root * root <= 2_500_000_022,
    {
        if root >= 50_001 {
            assert(root * root >= 50_001 * 50_001);
        }
    }
}

} // verus!
