use snek::runtime::{error_message, parse_i64, parse_input, value_text};

#[test]
fn input_booleans_use_their_tags() {
    assert_eq!(parse_input("true"), 3);
    assert_eq!(parse_input("false"), 1);
}

#[test]
fn input_numbers_are_shifted() {
    assert_eq!(parse_input("5"), 10);
    assert_eq!(parse_input("0"), 0);
    assert_eq!(parse_input("-7"), -14);
    assert_eq!(parse_input("+21"), 42);
}

#[test]
fn input_shift_wraps_in_64_bits() {
    assert_eq!(parse_input("4611686018427387904"), i64::MIN);
    assert_eq!(parse_input("9223372036854775807"), -2);
}

#[test]
fn parse_i64_follows_str_parse() {
    for s in ["", "+", "-", "12a", " 1", "1 ", "--1", "9223372036854775808", "-9223372036854775809", "0x10", "١"] {
        assert_eq!(parse_i64(s), s.parse::<i64>().ok(), "{s:?}");
    }
    for s in ["0", "-0", "+0", "007", "9223372036854775807", "-9223372036854775808", "123456789"] {
        assert_eq!(parse_i64(s), s.parse::<i64>().ok(), "{s:?}");
    }
    assert_eq!(parse_i64("-9223372036854775808"), Some(i64::MIN));
    assert_eq!(parse_i64("99999999999999999999999"), None);
}

#[test]
fn printed_values() {
    assert_eq!(value_text(3), "true");
    assert_eq!(value_text(1), "false");
    assert_eq!(value_text(10), "5");
    assert_eq!(value_text(0), "0");
    assert_eq!(value_text(-14), "-7");
    assert_eq!(value_text(5), "unknown value: 5");
    assert_eq!(value_text(-1), "unknown value: -1");
}

#[test]
fn print_reads_back_input() {
    for s in ["true", "false", "0", "12", "-12", "2147483647", "-2147483648"] {
        assert_eq!(value_text(parse_input(s)), s);
    }
}

#[test]
fn error_messages() {
    assert_eq!(error_message(1), "invalid argument");
    assert_eq!(error_message(2), "overflow");
    assert_eq!(error_message(7), "an error occurred 7");
    assert_eq!(error_message(-3), "an error occurred -3");
}
