//! The value types shared by the whole crate, and the limits that keep the
//! arithmetic inside machine integers.

use vstd::prelude::*;

verus! {

/// One whole unit of a metric, in the fixed-point scale used for values,
/// slopes, intercepts and deviations.
pub const UNIT: i64 = 1_000_000;

/// Largest magnitude of a sample value (one million units).
pub const VALUE_LIMIT: i64 = 1_000_000_000_000;

/// Largest magnitude of a slope: no line fitted to values within
/// `VALUE_LIMIT` on distinct days is steeper than twice that limit per day.
pub const SLOPE_LIMIT: i64 = 2_000_000_000_000;

/// Largest magnitude of an intercept; the fit of an admissible series stays
/// within it.
pub const ORIGIN_LIMIT: i64 = 32_769_000_000_000_000;

/// A series spans fewer than this many days (some forty-four years) from its
/// first to its last sample. With `VALUE_LIMIT` this keeps the sum of the
/// squared residuals of the steepest line within 128 bits.
pub const SPAN_LIMIT: u32 = 16_384;

/// Largest deviation a sample of an admissible series can have from an
/// admissible line; also the largest residual standard deviation.
pub const RESIDUAL_LIMIT: i64 = 65_538_000_000_000_000;

/// Number of samples in the window that seeds a new trend.
pub const SEED_WINDOW: usize = 14;

/// A trend must cover at least this many days to be kept.
pub const MIN_TREND_DAYS: u32 = 30;

/// A trend must be steeper than this (a tenth of a unit per day) to be kept.
pub const MIN_TREND_SLOPE: i64 = 100_000;

#[derive(Clone, Copy, Debug, PartialEq, Eq, Structural)]
pub enum FieldCategory {
    Input,
    Output,
    Hybrid,
}

#[derive(Clone, Copy, Debug, PartialEq, Eq, Structural)]
pub enum FieldType {
    Numeric,
    Boolean,
    Text,
}

/// A tracked metric: its column name, its role and the kind of data it holds.
#[derive(Clone, Debug, PartialEq)]
pub struct Field {
    pub name: String,
    pub category: FieldCategory,
    pub data_type: FieldType,
    pub active: bool,
}

/// One reading of a metric: the day index and the value in millionths.
#[derive(Clone, Copy, Debug, PartialEq, Eq, Structural)]
pub struct Sample {
    pub day: u32,
    pub value: i64,
}

/// A linear segment from day `start` to day `end`: `orig_val` is the fitted
/// value on the day of the first sample of the segment (which is `start`
/// wherever the engine makes a trend), `slope` the change per day, `stddev`
/// the root-mean-square residual of the fit.
#[derive(Clone, Copy, Debug, PartialEq, Eq, Structural)]
pub struct Trend {
    pub start: u32,
    pub end: u32,
    pub orig_val: i64,
    pub slope: i64,
    pub stddev: i64,
}

/// Why a line could not be fitted to a window of samples.
#[derive(Clone, Copy, Debug, PartialEq, Eq, Structural)]
pub enum FitError {
    /// The days of the window have no spread (or the window is empty).
    DegenerateFit,
}

/// Why no trends could be computed for a metric.
#[derive(Clone, Copy, Debug, PartialEq, Eq, Structural)]
pub enum TrendError {
    /// Fewer than fifteen samples.
    InsufficientData,
    /// A window inside the series could not be fitted. Samples on distinct
    /// days rule this out: the engine only fits windows of eight samples or
    /// more.
    Fit(FitError),
}

/// Magnitude of an integer.
pub open spec fn magnitude(x: int) -> int {
    if x >= 0 { x } else { -x }
}

/// The magnitude of a product is at most the product of the bounds of its
/// factors.
pub proof fn lemma_product_bound(a: int, b: int, la: int, lb: int)
    by (nonlinear_arith)
    requires
        -la <= a <= la,
        -lb <= b <= lb,
    ensures
        -(la * lb) <= a * b <= la * lb,
{
}

/// A line whose coefficients are within the limits.
pub open spec fn line_ok(slope: int, intercept: int) -> bool {
    &&& -(SLOPE_LIMIT as int) <= slope <= SLOPE_LIMIT as int
    &&& -(ORIGIN_LIMIT as int) <= intercept <= ORIGIN_LIMIT as int
}

impl Default for Trend {
    fn default() -> (trend: Trend)
        ensures
            trend == (Trend { start: 0, end: 0, orig_val: 0, slope: 0, stddev: 0 }),
    {
        Trend { start: 0, end: 0, orig_val: 0, slope: 0, stddev: 0 }
    }
}

impl Trend {
    /// The invariant of a trend: it does not end before it starts, its
    /// deviation is not negative, and its line is within the limits.
    pub open spec fn wf(self) -> bool {
        &&& self.start <= self.end
        &&& 0 <= self.stddev <= RESIDUAL_LIMIT
        &&& line_ok(self.slope as int, self.orig_val as int)
    }

    /// The value the trend predicts for a day.
    pub open spec fn expected(self, day: int) -> int {
        self.orig_val + self.slope * (day - self.start)
    }

    /// Whether a sample lies more than two deviations away from the line.
    pub open spec fn is_outlier(self, p: Sample) -> bool {
        magnitude(p.value - self.expected(p.day as int)) > 2 * self.stddev
    }
}

} // verus!
