use trendar::analysis::{analyze, find_all_trends};
use trendar::util::{Sample, Trend, TrendError, UNIT};

fn swing(k: u32, amplitude: i64) -> i64 {
    ((k as i64 * 7919) % 101 - 50) * amplitude / 50
}

fn rising(numerator: i64, denominator: i64, amplitude: i64) -> Vec<Sample> {
    (0..179u32)
        .map(|d| Sample { day: 22120 + d, value: d as i64 * UNIT * numerator / denominator + swing(d, amplitude) })
        .collect()
}

fn turning(days: u32, amplitude: i64) -> Vec<Sample> {
    (0..days)
        .map(|d| {
            let base = if d < 60 { d as i64 * UNIT / 2 } else { 30 * UNIT - (d as i64 - 60) * UNIT / 5 };
            Sample { day: 22120 + d, value: base + swing(d, amplitude) }
        })
        .collect()
}

fn straight(days: u32) -> Vec<Sample> {
    (0..days).map(|d| Sample { day: d, value: d as i64 * UNIT }).collect()
}

#[test]
fn insufficient_data() {
    for n in 0..15u32 {
        assert_eq!(find_all_trends(&straight(n)), Err(TrendError::InsufficientData));
    }
}

#[test]
fn fifteen_samples_are_enough_to_try() {
    assert_eq!(find_all_trends(&straight(15)), Ok(Vec::new()));
    assert_eq!(find_all_trends(&straight(16)), Ok(Vec::new()));
}

#[test]
fn one_long_line_is_one_trend() {
    assert_eq!(
        find_all_trends(&straight(45)),
        Ok(vec![Trend { start: 0, end: 44, orig_val: 0, slope: 1_000_000, stddev: 0 }])
    );
}

#[test]
fn flat_series_has_no_trend() {
    let flat: Vec<Sample> = (0..40u32).map(|d| Sample { day: d, value: 5 * UNIT }).collect();
    assert_eq!(find_all_trends(&flat), Ok(Vec::new()));
}

#[test]
fn missing_days_are_tolerated() {
    let sparse: Vec<Sample> = (0..40u32).map(|d| Sample { day: 3 * d, value: d as i64 * UNIT }).collect();
    assert_eq!(
        find_all_trends(&sparse),
        Ok(vec![
            Trend { start: 0, end: 45, orig_val: 6, slope: 333_333, stddev: 4 },
            Trend { start: 45, end: 90, orig_val: 15_000_006, slope: 333_333, stddev: 4 },
        ])
    );
}

#[test]
fn two_segment_recovery() {
    let series = turning(120, 200_000);
    let trends = find_all_trends(&series).unwrap();
    assert_eq!(trends.len(), 2);
    let unit = UNIT as f64;
    let first = trends[0].slope as f64 / unit;
    let second = trends[1].slope as f64 / unit;
    assert!(first > 0.4 && first < 0.6);
    assert!(second > -0.3 && second < -0.1);
    assert_eq!(trends[0].start, 22120);
    assert!(trends[0].end >= 22175 && trends[0].end <= 22190);
    assert_eq!(trends[1].start, trends[0].end);
    assert_eq!(trends[1].end, 22239);
}

#[test]
fn two_segments_without_noise() {
    assert_eq!(
        find_all_trends(&turning(120, 0)),
        Ok(vec![
            Trend { start: 22120, end: 22184, orig_val: 0, slope: 500_000, stddev: 0 },
            Trend { start: 22184, end: 22239, orig_val: 29_200_000, slope: -200_000, stddev: 0 },
        ])
    );
}

#[test]
fn same_series_same_trends() {
    let series = turning(179, 300_000);
    let first = find_all_trends(&series);
    let second = find_all_trends(&series.clone());
    assert!(first.is_ok());
    assert_eq!(first, second);
}

#[test]
fn steepest_series_have_their_trends() {
    let ramp: Vec<Sample> = (0..50u32)
        .map(|d| Sample { day: d, value: -1_000_000_000_000 + d as i64 * (2_000_000_000_000 / 49) })
        .collect();
    assert_eq!(
        find_all_trends(&ramp),
        Ok(vec![Trend { start: 0, end: 49, orig_val: -1_000_000_000_000, slope: 40_816_326_530, stddev: 0 }])
    );
    let mut cliff: Vec<Sample> = (0..14u32)
        .map(|d| Sample { day: d, value: -1_000_000_000_000 + d as i64 * (2_000_000_000_000 / 13) })
        .collect();
    for d in 14..50u32 {
        cliff.push(Sample { day: d, value: 1_000_000_000_000 });
    }
    assert_eq!(find_all_trends(&cliff), Ok(Vec::new()));
    let saw: Vec<Sample> = (0..30u32)
        .map(|d| Sample { day: d, value: if d % 2 == 1 { 1_000_000_000_000 } else { -1_000_000_000_000 } })
        .collect();
    assert_eq!(find_all_trends(&saw), Ok(Vec::new()));
}

#[test]
fn test_find_simple_trends() {
    let unit = UNIT as f64;
    let cols = vec![
        (rising(1, 2, 100_000), 0.5),
        (rising(3, 10, 1_000_000), 0.3),
        (rising(3, 10, 3_000_000), 0.3),
    ];
    for (col, slope) in cols {
        let trends = find_all_trends(&col);
        assert!(trends.is_ok());
        let trends = trends.unwrap();
        let trend = trends.first().unwrap();
        assert!(trend.slope as f64 / unit > slope - 0.1);
        assert!((trend.slope as f64 / unit) < slope + 0.1);
    }
    let trends = find_all_trends(&turning(179, 300_000));
    assert!(trends.is_ok());
    let trends = trends.unwrap();
    assert!(trends.len() == 2);
    let trend = trends.first().unwrap();
    assert!(trend.slope as f64 / unit > 0.4);
    assert!((trend.slope as f64 / unit) < 0.6);
    let trend = trends.last().unwrap();
    assert!(trend.slope as f64 / unit > -0.3);
    assert!((trend.slope as f64 / unit) < -0.1);
}

#[test]
fn switch_series_exact_trends() {
    assert_eq!(
        find_all_trends(&turning(179, 300_000)),
        Ok(vec![
            Trend { start: 22120, end: 22184, orig_val: -47_277, slope: 502_180, stddev: 177_731 },
            Trend { start: 22184, end: 22298, orig_val: 29_186_521, slope: -198_954, stddev: 179_324 },
        ])
    );
}

#[test]
fn analyze_answers_metric_by_metric() {
    let metrics = vec![straight(45), turning(120, 0)];
    assert_eq!(
        analyze(&metrics),
        vec![
            Ok(vec![Trend { start: 0, end: 44, orig_val: 0, slope: 1_000_000, stddev: 0 }]),
            Ok(vec![
                Trend { start: 22120, end: 22184, orig_val: 0, slope: 500_000, stddev: 0 },
                Trend { start: 22184, end: 22239, orig_val: 29_200_000, slope: -200_000, stddev: 0 },
            ]),
        ]
    );
    assert_eq!(analyze(&Vec::new()), Vec::<Result<Vec<Trend>, TrendError>>::new());
}

#[test]
fn analyze_goes_on_past_a_metric_without_data() {
    let metrics = vec![straight(45), straight(14), turning(120, 0)];
    let answers = analyze(&metrics);
    assert_eq!(answers.len(), 3);
    assert_eq!(answers[0], find_all_trends(&metrics[0]));
    assert_eq!(answers[0], Ok(vec![Trend { start: 0, end: 44, orig_val: 0, slope: 1_000_000, stddev: 0 }]));
    assert_eq!(answers[1], Err(TrendError::InsufficientData));
    assert_eq!(answers[2], find_all_trends(&metrics[2]));
    assert_eq!(answers[2].as_ref().map(|trends| trends.len()), Ok(2));
}
