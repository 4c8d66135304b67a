use lumos::sensor::parse_illuminance;

#[test]
fn plain_number_parses() {
    assert_eq!(parse_illuminance(b"300"), Some(300));
    assert_eq!(parse_illuminance(b"0"), Some(0));
    assert_eq!(parse_illuminance(b"007"), Some(7));
}

#[test]
fn surrounding_whitespace_is_trimmed() {
    assert_eq!(parse_illuminance(b" 42\n"), Some(42));
    assert_eq!(parse_illuminance(b"\t\r\n 1100 \n"), Some(1100));
}

#[test]
fn signs_are_honored() {
    assert_eq!(parse_illuminance(b"-17"), Some(-17));
    assert_eq!(parse_illuminance(b"+5"), Some(5));
}

#[test]
fn extreme_values_parse_exactly_to_the_limits() {
    assert_eq!(parse_illuminance(b"2147483647"), Some(2147483647));
    assert_eq!(parse_illuminance(b"2147483648"), None);
    assert_eq!(parse_illuminance(b"-2147483648"), Some(-2147483648));
    assert_eq!(parse_illuminance(b"-2147483649"), None);
    assert_eq!(parse_illuminance(b"99999999999999999999"), None);
    assert_eq!(parse_illuminance(b"-99999999999999999999"), None);
}

#[test]
fn malformed_readings_are_rejected() {
    assert_eq!(parse_illuminance(b""), None);
    assert_eq!(parse_illuminance(b"   \n"), None);
    assert_eq!(parse_illuminance(b"abc"), None);
    assert_eq!(parse_illuminance(b"12a"), None);
    assert_eq!(parse_illuminance(b"a12"), None);
    assert_eq!(parse_illuminance(b"1 2"), None);
    assert_eq!(parse_illuminance(b"-"), None);
    assert_eq!(parse_illuminance(b"+"), None);
    assert_eq!(parse_illuminance(b"--5"), None);
    assert_eq!(parse_illuminance(b"1.5"), None);
}
