use fraktivitaeten::fraktivitaet_verteilung::zeit::format_time;
use fraktivitaeten::text::{char_to_digit, chars_of, digit_to_char, find_colon, parse_usize, push_decimal};
use fraktivitaeten::{excluded, END, START, STEP, TIME_RESOLUTION};

#[test]
fn digits_convert_both_ways() {
    for d in 0..10 {
        assert_eq!(char_to_digit(digit_to_char(d)), Some(d));
    }
    assert_eq!(char_to_digit(':'), None);
    assert_eq!(char_to_digit('a'), None);
}

#[test]
fn push_decimal_writes_digits() {
    let mut out = vec!['x'];
    push_decimal(&mut out, 0);
    push_decimal(&mut out, 1207);
    assert_eq!(out, vec!['x', '0', '1', '2', '0', '7']);
}

#[test]
fn find_colon_and_parse() {
    let s = chars_of("12:045");
    assert_eq!(s.len(), 6);
    assert_eq!(find_colon(&s, 0), 2);
    assert_eq!(find_colon(&s, 3), 6);
    assert_eq!(parse_usize(&s, 0, 2), 12);
    assert_eq!(parse_usize(&s, 3, 6), 45);
}

#[test]
fn format_time_pads_fields() {
    assert_eq!(format_time(8, 5), "08:05");
    assert_eq!(format_time(23, 59), "23:59");
    assert_eq!(format_time(123, 0), "123:00");
}

#[test]
fn default_day_constants() {
    assert_eq!(START, "08:00");
    assert_eq!(END, "22:00");
    assert_eq!(STEP, 15);
    assert_eq!(TIME_RESOLUTION, 15);
    assert!(excluded().is_empty());
}
