use trendar::fit::{
    calculate_single_lobf, calculate_std_dev, deviation_range, find_trends, fit_range, fit_trend, fit_window,
};
use trendar::root::isqrt;
use trendar::util::{FitError, Sample, Trend, UNIT};

fn line(days: u32, per_day: i64) -> Vec<Sample> {
    (0..days).map(|d| Sample { day: d, value: per_day * d as i64 }).collect()
}

fn wobble(k: u32) -> i64 {
    ((k as i64 * 7919) % 101 - 50) * 1000
}

#[test]
fn exact_fit_recovery() {
    let samples = line(16, 2 * UNIT);
    assert_eq!(calculate_single_lobf(&samples), Ok((2_000_000, 0)));
    assert_eq!(calculate_std_dev(&samples, 2_000_000, 0), 0);
}

#[test]
fn noisy_fit_stays_close() {
    let samples: Vec<Sample> =
        (0..16u32).map(|d| Sample { day: d, value: 2 * UNIT * d as i64 + wobble(d) }).collect();
    for p in &samples {
        assert!((p.value - 2 * UNIT * p.day as i64).abs() <= 50_000);
    }
    let (slope, intercept) = calculate_single_lobf(&samples).unwrap();
    assert_eq!((slope, intercept), (2_000_600, -12_125));
    let stddev = calculate_std_dev(&samples, slope, intercept);
    assert_eq!(stddev, 29_337);
    let slope_units = slope as f64 / UNIT as f64;
    let stddev_units = stddev as f64 / UNIT as f64;
    assert!((slope_units - 2.0).abs() < 0.1);
    assert!(stddev_units < 0.1);
}

#[test]
fn fit_counts_days_from_the_first_sample() {
    let samples = vec![
        Sample { day: 10, value: 1_000_000 },
        Sample { day: 12, value: 2_000_000 },
        Sample { day: 20, value: 7_000_000 },
    ];
    assert_eq!(calculate_single_lobf(&samples), Ok((607_142, 904_765)));
    assert_eq!(calculate_std_dev(&samples, 607_142, 904_765), 89_087);
}

#[test]
fn fit_rounds_toward_zero() {
    let falling = vec![
        Sample { day: 0, value: 0 },
        Sample { day: 1, value: 0 },
        Sample { day: 2, value: -1 },
    ];
    assert_eq!(calculate_single_lobf(&falling), Ok((0, 0)));
    let rising = vec![
        Sample { day: 0, value: 0 },
        Sample { day: 1, value: 0 },
        Sample { day: 2, value: 1 },
    ];
    assert_eq!(calculate_single_lobf(&rising), Ok((0, 0)));
}

#[test]
fn fit_of_one_sample_is_degenerate() {
    let one = vec![Sample { day: 5, value: 1 }];
    assert_eq!(calculate_single_lobf(&one), Err(FitError::DegenerateFit));
}

#[test]
fn fit_of_nothing_is_degenerate() {
    let none: Vec<Sample> = Vec::new();
    assert_eq!(calculate_single_lobf(&none), Err(FitError::DegenerateFit));
    assert_eq!(calculate_std_dev(&none, 0, 0), 0);
}

#[test]
fn steepest_line_is_fitted() {
    let cliff = vec![
        Sample { day: 0, value: -1_000_000_000_000 },
        Sample { day: 1, value: 1_000_000_000_000 },
    ];
    assert_eq!(calculate_single_lobf(&cliff), Ok((2_000_000_000_000, -1_000_000_000_000)));
    assert_eq!(calculate_std_dev(&cliff, 2_000_000_000_000, -1_000_000_000_000), 0);
    let drop = vec![
        Sample { day: 7, value: 1_000_000_000_000 },
        Sample { day: 8, value: -1_000_000_000_000 },
    ];
    assert_eq!(calculate_single_lobf(&drop), Ok((-2_000_000_000_000, 1_000_000_000_000)));
}

#[test]
fn steep_window_is_a_trend() {
    let ramp: Vec<Sample> = (0..14u32)
        .map(|d| Sample { day: d, value: -1_000_000_000_000 + d as i64 * (2_000_000_000_000 / 13) })
        .collect();
    assert_eq!(
        find_trends(&ramp, 0, 13),
        Ok(Trend { start: 0, end: 13, orig_val: -1_000_000_000_000, slope: 153_846_153_846, stddev: 0 })
    );
}

#[test]
fn std_dev_is_root_of_mean_square() {
    let bump = vec![
        Sample { day: 0, value: 0 },
        Sample { day: 1, value: 3 },
        Sample { day: 2, value: 0 },
    ];
    assert_eq!(calculate_std_dev(&bump, 0, 0), 1);
    let bump_units = vec![
        Sample { day: 0, value: 0 },
        Sample { day: 1, value: 3_000_000 },
        Sample { day: 2, value: 0 },
    ];
    assert_eq!(calculate_std_dev(&bump_units, 0, 0), 1_732_050);
}

#[test]
fn std_dev_of_one_sample() {
    let one = vec![Sample { day: 4, value: 5 }];
    assert_eq!(calculate_std_dev(&one, 0, 5), 0);
    assert_eq!(calculate_std_dev(&one, 0, 0), 5);
}

#[test]
fn fit_range_takes_the_middle() {
    let mut samples = line(10, UNIT);
    samples[0].value = 55 * UNIT;
    samples[9].value = -55 * UNIT;
    assert_eq!(fit_range(&samples, 1, 9), Ok((1_000_000, 1_000_000)));
    assert_eq!(deviation_range(&samples, 1, 9, 1_000_000, 1_000_000), 0);
    assert_eq!(fit_window(&samples, 1, 9), (1_000_000, 1_000_000));
    assert_eq!(fit_range(&samples, 3, 3), Err(FitError::DegenerateFit));
    assert_eq!(fit_range(&samples, 3, 4), Err(FitError::DegenerateFit));
    assert_eq!(
        fit_trend(&samples, 1, 8),
        Trend { start: 1, end: 8, orig_val: 1_000_000, slope: 1_000_000, stddev: 0 }
    );
    assert_eq!(deviation_range(&samples, 3, 3, 0, 0), 0);
}

#[test]
fn find_trends_uses_the_samples_inside_the_days() {
    let samples = vec![
        Sample { day: 10, value: 1_000_000 },
        Sample { day: 12, value: 2_000_000 },
        Sample { day: 20, value: 7_000_000 },
        Sample { day: 25, value: 3_000_000 },
    ];
    assert_eq!(
        find_trends(&samples, 11, 22),
        Ok(Trend { start: 11, end: 22, orig_val: 2_000_000, slope: 625_000, stddev: 0 })
    );
    assert_eq!(find_trends(&samples, 13, 19), Err(FitError::DegenerateFit));
    assert_eq!(find_trends(&samples, 22, 11), Err(FitError::DegenerateFit));
    assert_eq!(find_trends(&samples, 12, 12), Err(FitError::DegenerateFit));
}

#[test]
fn integer_square_roots() {
    assert_eq!(isqrt(0), 0);
    assert_eq!(isqrt(1), 1);
    assert_eq!(isqrt(2), 1);
    assert_eq!(isqrt(3), 1);
    assert_eq!(isqrt(4), 2);
    assert_eq!(isqrt(15), 3);
    assert_eq!(isqrt(16), 4);
    assert_eq!(isqrt(1_000_000_000_000), 1_000_000);
    assert_eq!(isqrt(999_999_999_999), 999_999);
    assert_eq!(isqrt(u128::MAX), u64::MAX);
}

fn squared_error(samples: &[Sample], slope: i64, intercept: i64) -> i128 {
    let origin = samples[0].day;
    samples
        .iter()
        .map(|p| {
            let r = p.value as i128 - (intercept as i128 + slope as i128 * (p.day - origin) as i128);
            r * r
        })
        .sum()
}

#[test]
fn fitted_line_is_hard_to_beat() {
    let samples: Vec<Sample> =
        (0..16u32).map(|d| Sample { day: 3 * d, value: 7 * UNIT - 250_000 * d as i64 + 40 * wobble(d) }).collect();
    let (slope, intercept) = calculate_single_lobf(&samples).unwrap();
    let n = samples.len() as i128;
    let days: i128 = samples.iter().map(|p| p.day as i128).sum();
    let squares: i128 = samples.iter().map(|p| (p.day as i128) * (p.day as i128)).sum();
    let spread = n * squares - days * days;
    let fitted = squared_error(&samples, slope, intercept);
    for ds in [-1_000i64, -1, 0, 1, 1_000] {
        for di in [-1_000i64, -1, 0, 1, 1_000] {
            let other = squared_error(&samples, slope + ds, intercept + di);
            assert!(n * fitted < n * other + n * n + spread);
        }
    }
    let far = squared_error(&samples, 0, 0);
    assert!(fitted < far);
}

#[test]
fn any_noise_pattern_within_a_twentieth_is_tolerated() {
    for seed in 0..50u32 {
        let samples: Vec<Sample> = (0..16u32)
            .map(|d| {
                let noise = ((d as i64 * 7919 + seed as i64 * 104_729) % 100_001) - 50_000;
                Sample { day: 500 + d, value: 2 * UNIT * d as i64 + noise }
            })
            .collect();
        let (slope, intercept) = calculate_single_lobf(&samples).unwrap();
        assert!((slope - 2 * UNIT).abs() < 10_000);
        let stddev = calculate_std_dev(&samples, slope, intercept);
        assert!(stddev >= 0 && stddev <= 50_000);
    }
}
