use protocrap::descriptor::DescriptorProto;
use protocrap::wellknown::{
    detect_well_known_type, format_duration, format_timestamp, parse_duration, parse_i32, parse_i64,
    parse_timestamp, validate_duration, validate_timestamp, TimeError, WellKnownType,
};

fn text(r: Result<Vec<u8>, TimeError>) -> String {
    String::from_utf8(r.expect("formats")).unwrap()
}

#[test]
fn durations_format_with_trimmed_fractions() {
    assert_eq!(text(format_duration(0, 0)), "0s");
    assert_eq!(text(format_duration(5, 0)), "5s");
    assert_eq!(text(format_duration(-5, 0)), "-5s");
    assert_eq!(text(format_duration(1, 500_000_000)), "1.5s");
    assert_eq!(text(format_duration(-1, -500_000_000)), "-1.5s");
    assert_eq!(text(format_duration(0, 1)), "0.000000001s");
    assert_eq!(text(format_duration(0, -250_000_000)), "-0.25s");
    assert_eq!(format_duration(1, -1), Err(TimeError::SignMismatch));
    assert_eq!(format_duration(315_576_000_001, 0), Err(TimeError::SecondsOutOfRange));
}

#[test]
fn durations_parse_seconds_and_fractions() {
    assert_eq!(parse_duration("5s"), Ok((5, 0)));
    assert_eq!(parse_duration("1.5s"), Ok((1, 500_000_000)));
    assert_eq!(parse_duration("-1.5s"), Ok((-1, -500_000_000)));
    assert_eq!(parse_duration("0.0000000019s"), Ok((0, 1)));
    assert_eq!(parse_duration("5"), Err(TimeError::MissingSuffix));
    assert_eq!(parse_duration("x.5s"), Err(TimeError::InvalidSeconds));
    assert_eq!(parse_duration("1.xs"), Err(TimeError::InvalidNanos));
}

#[test]
fn validation_ranges() {
    assert_eq!(validate_timestamp(0, 0), Ok(()));
    assert_eq!(validate_timestamp(-62_135_596_801, 0), Err(TimeError::SecondsOutOfRange));
    assert_eq!(validate_timestamp(253_402_300_799, 999_999_999), Ok(()));
    assert_eq!(validate_timestamp(0, -1), Err(TimeError::NanosOutOfRange));
    assert_eq!(validate_duration(-315_576_000_000, -999_999_999), Ok(()));
    assert_eq!(validate_duration(0, 1_000_000_000), Err(TimeError::NanosOutOfRange));
    assert_eq!(validate_duration(-1, 1), Err(TimeError::SignMismatch));
}

#[test]
fn timestamps_format_and_parse_rfc3339() {
    assert_eq!(format_timestamp(0, 0).unwrap(), "1970-01-01T00:00:00Z");
    assert_eq!(format_timestamp(1_700_000_000, 500_000_000).unwrap(), "2023-11-14T22:13:20.5Z");
    assert_eq!(format_timestamp(0, -1), Err(TimeError::NanosOutOfRange));
    assert_eq!(parse_timestamp("1970-01-01T00:00:00Z"), Ok((0, 0)));
    assert_eq!(parse_timestamp("2023-11-14T22:13:20.5Z"), Ok((1_700_000_000, 500_000_000)));
    assert_eq!(parse_timestamp("1970-01-01T01:00:00+01:00"), Ok((0, 0)));
    assert_eq!(parse_timestamp("yesterday"), Err(TimeError::InvalidTimestamp));
}

#[test]
fn integers_parse_like_from_str() {
    assert_eq!(parse_i64(b"-9223372036854775808"), Some(i64::MIN));
    assert_eq!(parse_i64(b"9223372036854775808"), None);
    assert_eq!(parse_i32(b"+42"), Some(42));
    assert_eq!(parse_i32(b"-"), None);
    assert_eq!(parse_i32(b""), None);
}

#[test]
fn well_known_types_are_found_by_name() {
    let named = |name: &str| DescriptorProto { name: name.to_string(), field: vec![], nested_type: vec![], map_entry: false };
    assert_eq!(detect_well_known_type(&named("Timestamp")), WellKnownType::Timestamp);
    assert_eq!(detect_well_known_type(&named("Int32Value")), WellKnownType::Int32Value);
    assert_eq!(detect_well_known_type(&named("BytesValue")), WellKnownType::BytesValue);
    assert_eq!(detect_well_known_type(&named("Test")), WellKnownType::Plain);
}

#[test]
fn format_duration_takes_every_valid_duration() {
    assert_eq!(text(format_duration(315_576_000_000, 1)), "315576000000.000000001s");
    assert_eq!(text(format_duration(-315_576_000_000, -999_999_999)), "-315576000000.999999999s");
}

#[test]
fn duration_text_reads_back_as_the_duration() {
    for (s, n) in [(0i64, 0i32), (5, 0), (-5, 0), (1, 500_000_000), (-1, -500_000_000), (0, 1), (315_576_000_000, 1), (-315_576_000_000, -999_999_999)] {
        let text = text(format_duration(s, n));
        assert_eq!(parse_duration(&text), Ok((s, n)));
    }
    // below a second and negative: the sign is lost on reading
    let text = text(format_duration(0, -250_000_000));
    assert_eq!(parse_duration(&text), Ok((0, 250_000_000)));
}
