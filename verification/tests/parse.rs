use std::time::Duration;

use stripchart::parse::{duration_fits, parse_duration};

#[test]
fn durations() {
    assert_eq!(parse_duration("250ms").unwrap(), Duration::from_millis(250));
    assert_eq!(parse_duration("2").unwrap(), Duration::from_secs(2));
    assert_eq!(parse_duration("1.5m").unwrap(), Duration::from_secs(90));
    assert_eq!(parse_duration("1e-3s").unwrap(), Duration::from_millis(1));
    assert!(parse_duration("0s").is_err());
    assert!(parse_duration("3 parsecs").is_err());
}

#[test]
fn duration_units() {
    assert_eq!(parse_duration("2sec").unwrap(), Duration::from_secs(2));
    assert_eq!(parse_duration("5us").unwrap(), Duration::from_micros(5));
    assert_eq!(parse_duration("3min").unwrap(), Duration::from_secs(180));
    assert_eq!(parse_duration("2h").unwrap(), Duration::from_secs(7200));
    assert_eq!(parse_duration("1d").unwrap(), Duration::from_secs(86400));
    assert_eq!(parse_duration("  .5 s ").unwrap(), Duration::from_millis(500));
    assert_eq!(parse_duration("+2.").unwrap(), Duration::from_secs(2));
    assert_eq!(parse_duration("1E3ms").unwrap(), Duration::from_secs(1));
}

#[test]
fn duration_rounding() {
    assert_eq!(parse_duration("1.5e-9").unwrap(), Duration::new(0, 2));
    assert_eq!(parse_duration("1.4e-9").unwrap(), Duration::new(0, 1));
    assert_eq!(parse_duration("1e-400").unwrap(), Duration::new(0, 0));
    assert_eq!(parse_duration("0.0000000012345s").unwrap(), Duration::new(0, 1));
    assert_eq!(parse_duration("90061.000000001").unwrap(), Duration::new(90061, 1));
}

#[test]
fn duration_errors() {
    assert_eq!(parse_duration("abc").unwrap_err(), "invalid duration 'abc'");
    assert_eq!(parse_duration(" 3 parsecs ").unwrap_err(), "unknown unit 'parsecs' in duration '3 parsecs'");
    assert_eq!(parse_duration("-1s").unwrap_err(), "duration '-1s' must be positive");
    assert_eq!(parse_duration("inf s").unwrap_err(), "duration 'inf s' must be positive");
    assert_eq!(parse_duration("NaN s").unwrap_err(), "duration 'NaN s' must be positive");
    assert_eq!(parse_duration("1.2.3s").unwrap_err(), "invalid duration '1.2.3s'");
    assert_eq!(parse_duration("1e+s").unwrap_err(), "invalid duration '1e+s'");
    assert_eq!(parse_duration("").unwrap_err(), "invalid duration ''");
}

#[test]
fn duration_range() {
    assert!(duration_fits("1h"));
    assert!(duration_fits("bogus"));
    assert!(duration_fits("18446744073709551615s"));
    assert!(!duration_fits("18446744073709551616s"));
    assert!(!duration_fits("1e300"));
    assert!(!duration_fits("1e99999999999999999999999999999999999"));
    assert!(duration_fits("1e-99999999999999999999999999999999999"));
}

use stripchart::parse::{parse_line, parse_number, Field, Parsed};

fn num(s: &str) -> Option<f64> {
    s.parse().ok()
}

fn vals(line: &str) -> Vec<Field<f64>> {
    match parse_line(line, &num) {
        Parsed::Values(f) => f,
        other => panic!("expected values, got {other:?}"),
    }
}

fn pos(value: f64) -> Field<f64> {
    Field { key: None, value }
}

fn named(key: &str, value: f64) -> Field<f64> {
    Field { key: Some(key.into()), value }
}

#[test]
fn positional() {
    assert_eq!(vals("1 2.5, -3;4e2"), [pos(1.0), pos(2.5), pos(-3.0), pos(400.0)]);
}

#[test]
fn named_and_units() {
    assert_eq!(vals("temp=21.5C rh:40% V 3.3V"), [named("temp", 21.5), named("rh", 40.0), pos(3.3)]);
}

#[test]
fn headers() {
    assert_eq!(parse_line("time temp", &num), Parsed::Header(vec!["time".into(), "temp".into()]));
    assert_eq!(parse_line("# a b", &num), Parsed::Header(vec!["a".into(), "b".into()]));
    assert_eq!(parse_line("# 1 2", &num), Parsed::Empty);
    assert_eq!(parse_line("   ", &num), Parsed::Empty);
}

#[test]
fn clock_is_not_a_key() {
    assert_eq!(vals("12:30 5"), [pos(5.0)]);
}

#[test]
fn numbers_with_units() {
    assert_eq!(parse_number("21.5°C", &num), Some(21.5));
    assert_eq!(parse_number("40%", &num), Some(40.0));
    assert_eq!(parse_number("V", &num), None);
    assert_eq!(parse_number("12:30", &num), None);
    assert_eq!(parse_number("inf", &num), Some(f64::INFINITY));
    assert_eq!(parse_number("-7", &num), Some(-7.0));
}

#[test]
fn keyed_tokens() {
    assert_eq!(vals("_x=1 a:b:2 k=v=3"), [named("_x", 1.0)]);
    assert_eq!(parse_line("a=b", &num), Parsed::Empty);
    assert_eq!(vals("x=1=2 y=3"), [named("y", 3.0)]);
    assert_eq!(vals("\tlevel=\u{3000}7 ; 8"), [pos(7.0), pos(8.0)]);
}

#[test]
fn comments_and_words() {
    assert_eq!(parse_line("#", &num), Parsed::Empty);
    assert_eq!(parse_line("  # x=1 y", &num), Parsed::Empty);
    assert_eq!(parse_line("error: device lost", &num), Parsed::Header(vec!["device".into(), "lost".into()]));
    assert_eq!(vals("value 3 units"), [pos(3.0)]);
}

#[test]
fn duration_pieces() {
    assert_eq!(stripchart::parse::duration_parts("  1.5 m "), ("1.5".to_string(), Some((6, 10))));
    assert_eq!(stripchart::parse::duration_parts("250ms"), ("250".to_string(), Some((1, 6))));
    assert_eq!(stripchart::parse::duration_parts("1e400x"), ("1e400".to_string(), None));
}
