use trendar::extend::{extend_trend, validate_trend};
use trendar::fit::find_trends;
use trendar::util::{Sample, Trend, UNIT};

fn swing(k: u32, amplitude: i64) -> i64 {
    ((k as i64 * 7919) % 101 - 50) * amplitude / 50
}

fn switch_series() -> Vec<Sample> {
    (0..179u32)
        .map(|d| {
            let base = if d < 60 { d as i64 * UNIT / 2 } else { 30 * UNIT - (d as i64 - 60) * UNIT / 5 };
            Sample { day: 22120 + d, value: base + swing(d, 300_000) }
        })
        .collect()
}

fn trend_of(days: u32, slope: i64) -> Trend {
    Trend { start: 100, end: 100 + days, orig_val: 0, slope, stddev: 0 }
}

#[test]
fn segment_validity_boundary() {
    assert!(!validate_trend(&trend_of(29, 110_000)));
    assert!(validate_trend(&trend_of(30, 110_000)));
    assert!(validate_trend(&trend_of(30, -110_000)));
    assert!(!validate_trend(&trend_of(30, 90_000)));
    assert!(!validate_trend(&trend_of(30, -90_000)));
}

#[test]
fn slope_of_exactly_a_tenth_is_not_enough() {
    assert!(!validate_trend(&trend_of(30, 100_000)));
    assert!(!validate_trend(&trend_of(30, -100_000)));
    assert!(validate_trend(&trend_of(30, 100_001)));
    assert!(validate_trend(&trend_of(4000, -100_001)));
    assert!(!validate_trend(&trend_of(0, 5_000_000)));
}

#[test]
fn perfect_line_extends_to_the_last_day() {
    let samples: Vec<Sample> = (0..40u32).map(|d| Sample { day: d, value: d as i64 * UNIT }).collect();
    let seed = Trend { start: 0, end: 13, orig_val: 0, slope: UNIT, stddev: 0 };
    assert_eq!(
        extend_trend(&samples, &seed),
        Trend { start: 0, end: 39, orig_val: 0, slope: UNIT, stddev: 0 }
    );
}

#[test]
fn trend_past_the_series_is_left_alone() {
    let samples: Vec<Sample> = (0..40u32).map(|d| Sample { day: d, value: d as i64 * UNIT }).collect();
    let seed = Trend { start: 0, end: 50, orig_val: 0, slope: UNIT, stddev: 0 };
    assert_eq!(extend_trend(&samples, &seed), seed);
}

#[test]
fn trend_ending_on_the_last_day_stays() {
    let samples: Vec<Sample> = (0..14u32).map(|d| Sample { day: d, value: d as i64 * UNIT }).collect();
    let seed = Trend { start: 0, end: 13, orig_val: 0, slope: UNIT, stddev: 0 };
    assert_eq!(extend_trend(&samples, &seed), seed);
}

#[test]
fn extension_stops_where_the_slope_turns() {
    let samples = switch_series();
    let seed = find_trends(&samples, 22120, 22134).unwrap();
    assert_eq!(seed, Trend { start: 22120, end: 22134, orig_val: -103_044, slope: 510_092, stddev: 169_091 });
    assert_eq!(
        extend_trend(&samples, &seed),
        Trend { start: 22120, end: 22184, orig_val: -23_021, slope: 500_511, stddev: 176_502 }
    );
}

#[test]
fn test_slope_derivation() {
    let samples = switch_series();
    let unit = UNIT as f64;

    let trend = find_trends(&samples, 22120, 22169).unwrap();
    assert!(trend.slope as f64 / unit > 0.4);
    assert!((trend.slope as f64 / unit) < 0.6);
    assert!((trend.stddev as f64 / unit) < 6.0);

    let trend = find_trends(&samples, 22120, 22134).unwrap();
    let trend = extend_trend(&samples, &trend);
    assert!(trend.slope as f64 / unit > 0.4);
    assert!((trend.slope as f64 / unit) < 0.6);
    assert!((trend.stddev as f64 / unit) < 6.0);
}

fn daily(units: &[i64]) -> Vec<Sample> {
    units.iter().enumerate().map(|(d, v)| Sample { day: d as u32, value: v * UNIT }).collect()
}

#[test]
fn walking_back_can_reach_the_seed() {
    let samples = daily(&[4, 0, -3, 3, 5, 1, 2, 7, 2, 5, 13, 6, 4, -3, 16, 0, 12, 16, 2, -2, 21, 2, -4, 22, -4]);
    let seed = find_trends(&samples, 0, 13).unwrap();
    assert_eq!(seed, Trend { start: 0, end: 13, orig_val: 1_685_719, slope: 246_153, stddev: 3_845_893 });
    assert_eq!(extend_trend(&samples, &seed), seed);
}

#[test]
fn fresh_fit_is_taken_then_turned_down() {
    let samples = daily(&[-1, -2, -4, 2, 0, 8, 8, 1, 4, 7, 3, 16, 13, -3, 5, 1, 15, 15, 15, 24, 21, 26, 22, 26, 25, 26, 24, 31, 29, 30, 5, 27, -1, 37, 35, 0, 32, -1, -2]);
    let seed = find_trends(&samples, 0, 13).unwrap();
    assert_eq!(
        extend_trend(&samples, &seed),
        Trend { start: 0, end: 32, orig_val: -2_757_570, slope: 980_519, stddev: 5_330_327 }
    );
}

#[test]
fn steep_fresh_fit_is_weighed_like_any_other() {
    let mut samples: Vec<Sample> = (0..14u32).map(|d| Sample { day: d, value: -1_000_000_000_000 }).collect();
    for d in 14..40u32 {
        samples.push(Sample { day: d, value: 1_000_000_000_000 });
    }
    let seed = find_trends(&samples, 0, 13).unwrap();
    assert_eq!(seed, Trend { start: 0, end: 13, orig_val: -1_000_000_000_000, slope: 0, stddev: 0 });
    assert_eq!(
        extend_trend(&samples, &seed),
        Trend { start: 0, end: 14, orig_val: -1_000_000_000_000, slope: 0, stddev: 0 }
    );
}

#[test]
fn trend_over_no_sample_accepts_no_fresh_fit() {
    let samples: Vec<Sample> = (0..30u32)
        .map(|d| Sample { day: 10 + d, value: if d < 3 { d as i64 * UNIT } else { 50 * UNIT + d as i64 * UNIT } })
        .collect();
    let empty = Trend { start: 0, end: 5, orig_val: 0, slope: 0, stddev: 0 };
    assert_eq!(extend_trend(&samples, &empty),
        Trend { start: 0, end: 11, orig_val: 0, slope: 0, stddev: 0 }
    );
    let loose = Trend { start: 0, end: 5, orig_val: 10 * UNIT, slope: 0, stddev: 100 * UNIT };
    assert_eq!(
        extend_trend(&samples, &loose),
        Trend { start: 0, end: 39, orig_val: 10 * UNIT, slope: 0, stddev: 100 * UNIT }
    );
}
