use trendar::series::{count_entries, find_from, get_range, is_series_ok, get_numeric_values_between_dates};
use trendar::util::{Field, FieldCategory, FieldType, Sample, Trend};

fn sparse() -> Vec<Sample> {
    vec![
        Sample { day: 10, value: 1 },
        Sample { day: 12, value: 2 },
        Sample { day: 20, value: 3 },
        Sample { day: 25, value: 4 },
    ]
}

#[test]
fn admissible_series() {
    assert!(is_series_ok(&Vec::new()));
    assert!(is_series_ok(&sparse()));
    assert!(is_series_ok(&vec![Sample { day: 7, value: -1_000_000_000_000 }]));
    assert!(is_series_ok(&vec![Sample { day: 0, value: 0 }, Sample { day: 16_383, value: 0 }]));
}

#[test]
fn series_with_a_day_twice_is_refused() {
    assert!(!is_series_ok(&vec![Sample { day: 3, value: 1 }, Sample { day: 3, value: 2 }]));
}

#[test]
fn series_out_of_order_is_refused() {
    assert!(!is_series_ok(&vec![Sample { day: 4, value: 1 }, Sample { day: 3, value: 2 }]));
    assert!(!is_series_ok(&vec![
        Sample { day: 1, value: 1 },
        Sample { day: 5, value: 1 },
        Sample { day: 4, value: 1 },
        Sample { day: 9, value: 2 },
    ]));
}

#[test]
fn series_with_a_value_too_large_is_refused() {
    assert!(!is_series_ok(&vec![Sample { day: 3, value: 1_000_000_000_001 }]));
    assert!(!is_series_ok(&vec![Sample { day: 3, value: 0 }, Sample { day: 4, value: -1_000_000_000_001 }]));
}

#[test]
fn series_too_long_is_refused() {
    assert!(!is_series_ok(&vec![Sample { day: 0, value: 0 }, Sample { day: 16_384, value: 0 }]));
}

#[test]
fn lookups_by_day() {
    let s = sparse();
    assert_eq!(find_from(&s, 0, 0), 0);
    assert_eq!(find_from(&s, 10, 0), 0);
    assert_eq!(find_from(&s, 11, 0), 1);
    assert_eq!(find_from(&s, 20, 0), 2);
    assert_eq!(find_from(&s, 26, 0), 4);
    assert_eq!(find_from(&s, 0, 3), 3);
    assert_eq!(find_from(&s, 0, 4), 4);
}

#[test]
fn values_between_days() {
    let s = sparse();
    assert_eq!(get_numeric_values_between_dates(&s, 12, 20), vec![Sample { day: 12, value: 2 }, Sample { day: 20, value: 3 }]);
    assert_eq!(get_numeric_values_between_dates(&s, 0, 100), s);
    assert_eq!(get_numeric_values_between_dates(&s, 13, 19), Vec::<Sample>::new());
    assert_eq!(get_numeric_values_between_dates(&s, 20, 12), Vec::<Sample>::new());
    assert_eq!(get_numeric_values_between_dates(&s, 25, u32::MAX), vec![Sample { day: 25, value: 4 }]);
}

#[test]
fn counting_between_days() {
    let s = sparse();
    assert_eq!(count_entries(&s, 10, 25), 4);
    assert_eq!(count_entries(&s, 11, 24), 2);
    assert_eq!(count_entries(&s, 12, 12), 1);
    assert_eq!(count_entries(&s, 26, 30), 0);
    assert_eq!(count_entries(&s, 20, 12), 0);
}

#[test]
fn range_of_a_series() {
    assert_eq!(get_range(&sparse()), Some((10, 25)));
    assert_eq!(get_range(&Vec::new()), None);
}

#[test]
fn fields_compare_by_their_parts() {
    let mood = Field {
        name: String::from("mood"),
        category: FieldCategory::Output,
        data_type: FieldType::Numeric,
        active: true,
    };
    let copy = mood.clone();
    assert_eq!(mood, copy);
    let mut other = mood.clone();
    other.category = FieldCategory::Hybrid;
    assert_ne!(mood, other);
    assert_ne!(FieldType::Boolean, FieldType::Text);
    assert_ne!(FieldCategory::Input, FieldCategory::Output);
}

#[test]
fn default_trend_is_all_zero() {
    assert_eq!(Trend::default(), Trend { start: 0, end: 0, orig_val: 0, slope: 0, stddev: 0 });
}
