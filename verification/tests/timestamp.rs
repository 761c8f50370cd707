use std::time::{SystemTime, UNIX_EPOCH};

use pzlib::decimal::parse_timestamp;
use pzlib::timestamp::{generate_timestamp_string, name_since_epoch};

#[test]
fn generated_name_is_the_time_now_in_milliseconds() {
    let before = SystemTime::now().duration_since(UNIX_EPOCH).unwrap().as_millis();
    let name = generate_timestamp_string().unwrap();
    let after = SystemTime::now().duration_since(UNIX_EPOCH).unwrap().as_millis();
    let millis = parse_timestamp(&name).unwrap();
    assert!(before <= millis && millis <= after, "{before} <= {millis} <= {after}");
    assert_eq!(name, millis.to_string());
}

#[test]
fn generated_names_do_not_go_back_in_time() {
    let first = parse_timestamp(&generate_timestamp_string().unwrap()).unwrap();
    let second = parse_timestamp(&generate_timestamp_string().unwrap()).unwrap();
    assert!(first <= second + 1000);
    assert!(first > 1_600_000_000_000);
}

#[test]
fn a_span_since_the_epoch_gives_its_name() {
    assert_eq!(name_since_epoch(Some(0)), Some("0".to_string()));
    assert_eq!(name_since_epoch(Some(1_700_000_000_123)), Some("1700000000123".to_string()));
    assert_eq!(
        name_since_epoch(Some(u128::MAX)),
        Some("340282366920938463463374607431768211455".to_string())
    );
}

#[test]
fn a_clock_before_the_epoch_gives_no_name() {
    assert_eq!(name_since_epoch(None), None);
}
