use microbit_telemetry::TelemetryError;
use microbit_telemetry::parser::{Sample, parse_record};

#[test]
fn well_formed_record_parses_to_its_literals() {
    let r = parse_record(b"X:10,Y:-20,Z:30,A:1,B:0").unwrap();
    assert_eq!(r, Sample { x: 10, y: -20, z: 30, a: 1, b: 0 });
}

#[test]
fn field_order_does_not_matter() {
    let r = parse_record(b"B:0,A:1,Z:30,Y:-20,X:10").unwrap();
    assert_eq!(r, Sample { x: 10, y: -20, z: 30, a: 1, b: 0 });
}

#[test]
fn missing_separator_is_missing_value() {
    assert_eq!(parse_record(b"X10"), Err(TelemetryError::MissingValue));
    assert_eq!(parse_record(b"X:1,Q"), Err(TelemetryError::MissingValue));
}

#[test]
fn empty_record_is_rejected() {
    assert_eq!(parse_record(b""), Err(TelemetryError::MissingValue));
}

#[test]
fn unparseable_value_is_invalid_value() {
    assert_eq!(parse_record(b"X:10,Y:abc,Z:30,A:0,B:0"), Err(TelemetryError::InvalidValue));
    assert_eq!(parse_record(b"X:"), Err(TelemetryError::InvalidValue));
    assert_eq!(parse_record(b"X:--1"), Err(TelemetryError::InvalidValue));
    assert_eq!(parse_record(b"X: 1"), Err(TelemetryError::InvalidValue));
}

#[test]
fn unrecognized_key_is_unknown_key() {
    assert_eq!(parse_record(b"Q:1"), Err(TelemetryError::UnknownKey));
    assert_eq!(parse_record(b"XY:1"), Err(TelemetryError::UnknownKey));
    assert_eq!(parse_record(b":1"), Err(TelemetryError::UnknownKey));
}

#[test]
fn value_is_checked_before_key() {
    // A bad value under a bad key reports the value first.
    assert_eq!(parse_record(b"Q:zz"), Err(TelemetryError::InvalidValue));
}

#[test]
fn missing_keys_keep_the_default() {
    let r = parse_record(b"X:5").unwrap();
    assert_eq!(r, Sample { x: 5, y: 0, z: 0, a: 0, b: 0 });
}

#[test]
fn repeated_key_last_write_wins() {
    let r = parse_record(b"X:1,X:2").unwrap();
    assert_eq!(r.x, 2);
}

#[test]
fn signed_32_bit_bounds_are_exact() {
    assert_eq!(parse_record(b"X:2147483647").unwrap().x, 2147483647);
    assert_eq!(parse_record(b"X:-2147483648").unwrap().x, -2147483648);
    assert_eq!(parse_record(b"X:2147483648"), Err(TelemetryError::InvalidValue));
    assert_eq!(parse_record(b"X:-2147483649"), Err(TelemetryError::InvalidValue));
    assert_eq!(
        parse_record(b"X:99999999999999999999999999"),
        Err(TelemetryError::InvalidValue)
    );
}

#[test]
fn explicit_plus_sign_is_accepted() {
    assert_eq!(parse_record(b"Y:+7").unwrap().y, 7);
}

#[test]
fn default_sample_is_all_zero() {
    assert_eq!(Sample::default(), Sample { x: 0, y: 0, z: 0, a: 0, b: 0 });
}
