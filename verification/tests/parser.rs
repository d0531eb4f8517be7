use billion_record_challenge::temperature::{check_temperature, parse_temperature};

#[test]
fn parses_negative_two_digit() {
    assert_eq!(parse_temperature(b"-12.3"), -123);
}

#[test]
fn parses_one_digit() {
    assert_eq!(parse_temperature(b"5.0"), 50);
    assert_eq!(parse_temperature(b"9.9"), 99);
}

#[test]
fn parses_two_digit() {
    assert_eq!(parse_temperature(b"99.9"), 999);
    assert_eq!(parse_temperature(b"12.3"), 123);
}

#[test]
fn parses_negative_one_digit() {
    assert_eq!(parse_temperature(b"-9.9"), -99);
    assert_eq!(parse_temperature(b"-2.5"), -25);
}

#[test]
fn parses_extremes() {
    assert_eq!(parse_temperature(b"-99.9"), -999);
    assert_eq!(parse_temperature(b"0.0"), 0);
}

#[test]
fn accepts_grammar() {
    assert!(check_temperature(b"0.0"));
    assert!(check_temperature(b"9.9"));
    assert!(check_temperature(b"-9.9"));
    assert!(check_temperature(b"99.9"));
    assert!(check_temperature(b"-99.9"));
}

#[test]
fn rejects_non_grammar() {
    assert!(!check_temperature(b""));
    assert!(!check_temperature(b"1"));
    assert!(!check_temperature(b"1.23"));
    assert!(!check_temperature(b"12.34"));
    assert!(!check_temperature(b"abc"));
    assert!(!check_temperature(b"-1.a"));
    assert!(!check_temperature(b"1,0"));
    assert!(!check_temperature(b"-123.4"));
}
