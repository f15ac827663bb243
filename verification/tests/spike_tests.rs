use trendar::spikes::detect_outliers;
use trendar::util::{Sample, UNIT};

fn swing(k: u32, amplitude: i64) -> i64 {
    ((k as i64 * 7919) % 101 - 50) * amplitude / 50
}

fn flat_with_spike(at: u32) -> Vec<Sample> {
    (0..30u32).map(|d| Sample { day: 100 + d, value: if d == at { 40 * UNIT } else { 10 * UNIT } }).collect()
}

#[test]
fn spike_detection() {
    assert_eq!(detect_outliers(&flat_with_spike(15)), vec![115]);
    assert_eq!(detect_outliers(&flat_with_spike(12)), vec![112]);
    assert_eq!(detect_outliers(&flat_with_spike(20)), vec![120]);
}

#[test]
fn spike_on_any_judged_day_is_the_only_one() {
    for at in 10..30u32 {
        assert_eq!(detect_outliers(&flat_with_spike(at)), vec![100 + at]);
    }
}

#[test]
fn flat_series_has_no_spike() {
    let flat: Vec<Sample> = (0..30u32).map(|d| Sample { day: d, value: 10 * UNIT }).collect();
    assert_eq!(detect_outliers(&flat), Vec::<u32>::new());
    assert_eq!(detect_outliers(&Vec::new()), Vec::<u32>::new());
}

#[test]
fn spike_set_aside_is_judged_later() {
    assert_eq!(detect_outliers(&flat_with_spike(9)), vec![109]);
}

#[test]
fn spike_among_the_first_four_is_not_judged() {
    assert_eq!(detect_outliers(&flat_with_spike(3)), Vec::<u32>::new());
}

#[test]
fn window_is_counted_in_days() {
    let mut series: Vec<Sample> = (0..12u32).map(|d| Sample { day: d, value: 7 * UNIT }).collect();
    for d in 0..12u32 {
        series.push(Sample { day: 40 + d, value: if d == 11 { 8 * UNIT } else { 7 * UNIT } });
    }
    assert_eq!(detect_outliers(&series), vec![51]);
}

#[test]
fn test_find_outliers() {
    let series: Vec<Sample> = (0..60u32)
        .map(|d| {
            let day = 22120 + d;
            let spike = if day == 22129 || day == 22138 { 30 * UNIT } else { 0 };
            Sample { day, value: 10 * UNIT + swing(d, 200_000) + spike }
        })
        .collect();
    let outliers = detect_outliers(&series);
    assert!(outliers.contains(&22129));
    assert!(outliers.contains(&22138));
    assert_eq!(outliers, vec![22129, 22138]);
}

#[test]
fn steepest_windows_are_judged_too() {
    let mut series: Vec<Sample> = (0..14u32)
        .map(|d| Sample { day: d, value: -1_000_000_000_000 + d as i64 * (2_000_000_000_000 / 13) })
        .collect();
    assert_eq!(detect_outliers(&series), Vec::<u32>::new());
    for d in 14..27u32 {
        series.push(Sample { day: d, value: 1_000_000_000_000 - (d as i64 - 13) * (2_000_000_000_000 / 13) });
    }
    assert_eq!(detect_outliers(&series), vec![14, 15, 16, 17, 18, 19]);
    let mut jumps: Vec<Sample> = (0..12u32).map(|d| Sample { day: d, value: 0 }).collect();
    jumps.push(Sample { day: 12, value: 1_000_000_000_000 });
    jumps.push(Sample { day: 13, value: -1_000_000_000_000 });
    jumps.push(Sample { day: 14, value: 0 });
    jumps.push(Sample { day: 15, value: 1_000_000_000_000 });
    assert_eq!(detect_outliers(&jumps), vec![12, 13, 15]);
}

#[test]
fn spike_is_found_whatever_the_first_day() {
    for first in [0u32, 14, 22_120, 4_000_000_000] {
        for at in 10..29u32 {
            let series: Vec<Sample> = (0..30u32)
                .map(|d| Sample { day: first + d, value: if d == at { 40 * UNIT } else { 10 * UNIT } })
                .collect();
            assert_eq!(detect_outliers(&series), vec![first + at]);
        }
    }
}
