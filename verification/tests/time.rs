//! Time-of-day parsing and travel-duration arithmetic.

use route_search::time::{parse_time, calculate_travel_duration};

#[test]
fn parses_a_valid_time() {
    assert_eq!(parse_time("09:30:00"), Some(34200));
    assert_eq!(parse_time("00:00:00"), Some(0));
    assert_eq!(parse_time("23:59:59"), Some(86399));
    assert_eq!(parse_time("12:34:56"), Some(45296));
}

#[test]
fn rejects_out_of_range_fields() {
    assert_eq!(parse_time("24:00:00"), None);
    assert_eq!(parse_time("09:60:00"), None);
    assert_eq!(parse_time("09:00:60"), None);
}

#[test]
fn rejects_malformed_strings() {
    assert_eq!(parse_time(""), None);
    assert_eq!(parse_time("9:30:00"), None);
    assert_eq!(parse_time("09:30:0"), None);
    assert_eq!(parse_time("09-30-00"), None);
    assert_eq!(parse_time("aa:bb:cc"), None);
    assert_eq!(parse_time("09:30:00x"), None);
}

#[test]
fn travel_duration_subtracts_times() {
    assert_eq!(calculate_travel_duration("09:00:00", "09:30:00"), Some(1800));
    assert_eq!(calculate_travel_duration("09:00:00", "09:00:00"), Some(0));
    assert_eq!(calculate_travel_duration("00:00:00", "23:59:59"), Some(86399));
}

#[test]
fn travel_duration_rejects_bad_inputs() {
    // Arrival before departure is a data error, not an overnight leg.
    assert_eq!(calculate_travel_duration("09:30:00", "09:00:00"), None);
    assert_eq!(calculate_travel_duration("bad", "09:00:00"), None);
    assert_eq!(calculate_travel_duration("09:00:00", "bad"), None);
}
