use grpnice::nice::new_niceness;
use grpnice::num::format_i32;
use grpnice::num::parse_i32;
use grpnice::num::parse_usize;

#[test]
fn upward_adds_and_caps() {
    assert_eq!(new_niceness(0, 10), 10);
    assert_eq!(new_niceness(5, 3), 8);
    assert_eq!(new_niceness(15, 10), 19);
    assert_eq!(new_niceness(19, 0), 19);
    assert_eq!(new_niceness(-20, 39), 19);
}

#[test]
fn downward_adds_and_caps() {
    assert_eq!(new_niceness(0, -10), -10);
    assert_eq!(new_niceness(-18, -5), -20);
    assert_eq!(new_niceness(-20, -1), -20);
    assert_eq!(new_niceness(10, -3), 7);
    assert_eq!(new_niceness(19, -39), -20);
}

#[test]
fn big_adjustments_saturate() {
    for old in -20..=19 {
        assert_eq!(new_niceness(old, 1000), 19);
        assert_eq!(new_niceness(old, -1000), -20);
    }
}

#[test]
fn extreme_arguments_do_not_overflow() {
    assert_eq!(new_niceness(i32::MAX, i32::MAX), 19);
    assert_eq!(new_niceness(i32::MIN, i32::MIN), -20);
    assert_eq!(new_niceness(i32::MIN, 0), i32::MIN);
    assert_eq!(new_niceness(i32::MAX, -1), i32::MAX - 1);
}

#[test]
fn parse_decimal_values() {
    assert_eq!(parse_i32("19"), Some(19));
    assert_eq!(parse_i32("0"), Some(0));
    assert_eq!(parse_i32("-20"), Some(-20));
    assert_eq!(parse_i32("+7"), Some(7));
    assert_eq!(parse_i32("007"), Some(7));
    assert_eq!(parse_i32("-0"), Some(0));
    assert_eq!(parse_i32("2147483647"), Some(i32::MAX));
    assert_eq!(parse_i32("-2147483648"), Some(i32::MIN));
}

#[test]
fn parse_rejects_bad_text() {
    assert_eq!(parse_i32(""), None);
    assert_eq!(parse_i32("-"), None);
    assert_eq!(parse_i32("+"), None);
    assert_eq!(parse_i32("12a"), None);
    assert_eq!(parse_i32("1 2"), None);
    assert_eq!(parse_i32(" 5"), None);
    assert_eq!(parse_i32("2147483648"), None);
    assert_eq!(parse_i32("-2147483649"), None);
    assert_eq!(parse_i32("99999999999999999999999999"), None);
}

#[test]
fn parse_usize_values() {
    assert_eq!(parse_usize("0"), Some(0));
    assert_eq!(parse_usize("+42"), Some(42));
    assert_eq!(parse_usize("1234"), Some(1234));
    assert_eq!(parse_usize("-1"), None);
    assert_eq!(parse_usize("-0"), None);
    assert_eq!(parse_usize(""), None);
    assert_eq!(parse_usize("12x"), None);
    assert_eq!(parse_usize("99999999999999999999999999"), None);
}

#[test]
fn format_decimal_values() {
    assert_eq!(format_i32(0), "0");
    assert_eq!(format_i32(10), "10");
    assert_eq!(format_i32(19), "19");
    assert_eq!(format_i32(-20), "-20");
    assert_eq!(format_i32(i32::MIN), "-2147483648");
    assert_eq!(format_i32(i32::MAX), "2147483647");
}

#[test]
fn format_then_parse_round_trips() {
    for v in [-20, -1, 0, 7, 19, 12345, -54321, i32::MIN, i32::MAX] {
        assert_eq!(parse_i32(&format_i32(v)), Some(v));
    }
}
