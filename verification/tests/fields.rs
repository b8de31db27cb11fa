use strftime_utc::decimal::{decimal_len, is_digit_byte, push_decimal, push_padded, push_signed, scan_digits};
use strftime_utc::names::{
    begins_with, month_abbreviation_bytes, month_name_bytes, push_bytes, scan_month_name,
    scan_name, scan_weekday_name, to_lower, weekday_abbreviation_bytes, weekday_name_bytes,
};
use strftime_utc::parse::{parse_civil, scan_field, scan_number, scan_offset, scan_year};
use strftime_utc::render::{is_directive_byte, push_field, render_civil};
use strftime_utc::strings::{contains_nul, format_bytes, parse_bytes};
use strftime_utc::{CivilTime, Error};

fn signed(v: i128, width: usize) -> String {
    let mut out = Vec::new();
    push_signed(&mut out, v, width);
    String::from_utf8(out).unwrap()
}

#[test]
fn numbers_are_written_in_decimal() {
    let mut out = b"x".to_vec();
    push_decimal(&mut out, 0);
    push_decimal(&mut out, 7);
    push_decimal(&mut out, 10);
    push_decimal(&mut out, 1234567890);
    assert_eq!(out, b"x07101234567890");
    let mut out = Vec::new();
    push_decimal(&mut out, u128::MAX);
    assert_eq!(out, b"340282366920938463463374607431768211455");
    assert_eq!(decimal_len(0), 1);
    assert_eq!(decimal_len(9), 1);
    assert_eq!(decimal_len(10), 2);
    assert_eq!(decimal_len(99999), 5);
    assert_eq!(decimal_len(u128::MAX), 39);
}

#[test]
fn numbers_are_padded_with_zeros() {
    let mut out = b"<".to_vec();
    push_padded(&mut out, 5, 2);
    push_padded(&mut out, 12, 2);
    push_padded(&mut out, 123, 2);
    push_padded(&mut out, 0, 0);
    push_padded(&mut out, 7, 4);
    assert_eq!(out, b"<051212300007");
    assert_eq!(signed(1969, 4), "1969");
    assert_eq!(signed(33, 4), "0033");
    assert_eq!(signed(0, 4), "0000");
    assert_eq!(signed(-5, 2), "-05");
    assert_eq!(signed(-12345, 4), "-12345");
    assert_eq!(signed(i128::MAX, 1), "170141183460469231731687303715884105727");
    assert_eq!(signed(i128::MIN, 1), "-170141183460469231731687303715884105728");
}

#[test]
fn digits_are_scanned() {
    assert!(is_digit_byte(b'0') && is_digit_byte(b'9') && is_digit_byte(b'5'));
    assert!(!is_digit_byte(b'/') && !is_digit_byte(b':') && !is_digit_byte(b'a'));
    let run = scan_digits(b"ab1234-", 2, 10);
    assert_eq!((run.len, run.value, run.fits), (4, 1234, true));
    let run = scan_digits(b"ab1234-", 2, 2);
    assert_eq!((run.len, run.value, run.fits), (2, 12, true));
    let run = scan_digits(b"ab1234-", 0, 10);
    assert_eq!((run.len, run.value, run.fits), (0, 0, true));
    let run = scan_digits(b"007", 0, 10);
    assert_eq!((run.len, run.value, run.fits), (3, 7, true));
    let run = scan_digits(b"12", 2, 10);
    assert_eq!((run.len, run.value, run.fits), (0, 0, true));
    let run = scan_digits(b"18446744073709551615", 0, 100);
    assert_eq!((run.len, run.value, run.fits), (20, u64::MAX, true));
    let run = scan_digits(b"18446744073709551616", 0, 100);
    assert_eq!((run.len, run.value, run.fits), (20, 0, false));
    let run = scan_digits(b"99999999999999999999999-", 0, 100);
    assert_eq!((run.len, run.value, run.fits), (23, 0, false));
}

#[test]
fn names_of_months_and_weekdays() {
    let months = [
        "January", "February", "March", "April", "May", "June", "July", "August", "September",
        "October", "November", "December",
    ];
    for (i, name) in months.iter().enumerate() {
        assert_eq!(month_name_bytes(i as i64 + 1), name.as_bytes());
        assert_eq!(month_abbreviation_bytes(i as i64 + 1), &name.as_bytes()[..3]);
    }
    let weekdays =
        ["Sunday", "Monday", "Tuesday", "Wednesday", "Thursday", "Friday", "Saturday"];
    for (i, name) in weekdays.iter().enumerate() {
        assert_eq!(weekday_name_bytes(i as i64), name.as_bytes());
        assert_eq!(weekday_abbreviation_bytes(i as i64), &name.as_bytes()[..3]);
    }
    assert_eq!(month_name_bytes(0), b"?");
    assert_eq!(month_name_bytes(13), b"?");
    assert_eq!(month_abbreviation_bytes(-1), b"?");
    assert_eq!(weekday_name_bytes(7), b"?");
    assert_eq!(weekday_abbreviation_bytes(-1), b"?");
}

#[test]
fn names_are_found_whatever_the_case() {
    assert_eq!(to_lower(b'A'), b'a');
    assert_eq!(to_lower(b'Z'), b'z');
    assert_eq!(to_lower(b'a'), b'a');
    assert_eq!(to_lower(b'@'), b'@');
    assert_eq!(to_lower(b'['), b'[');
    assert!(begins_with(b"xxMARCH", 2, b"March"));
    assert!(begins_with(b"xxmarching", 2, b"March"));
    assert!(!begins_with(b"xxMarc", 2, b"March"));
    assert!(!begins_with(b"xxMarsh", 2, b"March"));
    assert!(begins_with(b"abc", 3, b""));
    assert_eq!(scan_name(b"a March", 2, b"March", b"Mar"), Some(5));
    assert_eq!(scan_name(b"a Mars", 2, b"March", b"Mar"), Some(3));
    assert_eq!(scan_name(b"a Ma", 2, b"March", b"Mar"), None);
    assert_eq!(scan_month_name(b"september 1", 0), Some((9, 9)));
    assert_eq!(scan_month_name(b"sept 1", 0), Some((9, 3)));
    assert_eq!(scan_month_name(b"MAY", 0), Some((5, 3)));
    assert_eq!(scan_month_name(b"Ma", 0), None);
    assert_eq!(scan_month_name(b"1 dec", 2), Some((12, 3)));
    assert_eq!(scan_month_name(b"1 dec", 5), None);
    assert_eq!(scan_weekday_name(b"wednesday", 0), Some((3, 9)));
    assert_eq!(scan_weekday_name(b"Wednes", 0), Some((3, 3)));
    assert_eq!(scan_weekday_name(b"SAT", 0), Some((6, 3)));
    assert_eq!(scan_weekday_name(b"sun", 0), Some((0, 3)));
    assert_eq!(scan_weekday_name(b"day", 0), None);
    let mut out = b"ab".to_vec();
    push_bytes(&mut out, b"cd");
    push_bytes(&mut out, b"");
    assert_eq!(out, b"abcd");
}

#[test]
fn directives_are_the_listed_letters() {
    for b in 0u8..=255 {
        assert_eq!(is_directive_byte(b), b"YmdHMSjaAbBz%".contains(&b), "{}", b);
    }
}

#[test]
fn a_field_is_written_whatever_its_value() {
    let c = CivilTime {
        second: -1,
        minute: 100,
        hour: 7,
        day: 0,
        month: 13,
        year: i64::MIN,
        weekday: 7,
        day_of_year: i64::MAX,
        utc_offset: 3600,
    };
    assert_eq!(
        render_civil(&c, b"%Y %m %d %H %M %S %j %a %A %b %B %z"),
        b"-9223372036854775808 13 00 07 100 -01 9223372036854775808 ? ? ? ? +0000"
    );
    let mut out = b"[".to_vec();
    push_field(&mut out, &c, b'H');
    push_field(&mut out, &c, b'%');
    assert_eq!(out, b"[07%");
}

#[test]
fn rendering_copies_what_is_no_directive() {
    let c = CivilTime::from_timestamp(0);
    assert_eq!(render_civil(&c, b""), b"");
    assert_eq!(render_civil(&c, b"%"), b"%");
    assert_eq!(render_civil(&c, b"%%"), b"%");
    assert_eq!(render_civil(&c, b"%%%"), b"%%");
    assert_eq!(render_civil(&c, b"%%Y"), b"%Y");
    assert_eq!(render_civil(&c, b"%Q%Y"), b"%Q1970");
    assert_eq!(render_civil(&c, b"\xff%d\x00"), b"\xff01\x00");
    assert_eq!(render_civil(&c, b"plain"), b"plain");
}

#[test]
fn numbers_are_read_within_their_range() {
    assert_eq!(scan_number(b"12x", 0, 2, 1, 12), Some((12, 2)));
    assert_eq!(scan_number(b"123", 0, 2, 1, 12), Some((12, 2)));
    assert_eq!(scan_number(b"1x", 0, 2, 1, 12), Some((1, 1)));
    assert_eq!(scan_number(b"13", 0, 2, 1, 12), None);
    assert_eq!(scan_number(b"0", 0, 2, 1, 12), None);
    assert_eq!(scan_number(b"00", 0, 2, 0, 59), Some((0, 2)));
    assert_eq!(scan_number(b"x1", 0, 2, 0, 59), None);
    assert_eq!(scan_number(b"x1", 1, 2, 0, 59), Some((1, 1)));
    assert_eq!(scan_number(b"x1", 2, 2, 0, 59), None);
    assert_eq!(scan_number(b"366", 0, 3, 1, 366), Some((366, 3)));
    assert_eq!(scan_number(b"99999999999999999999", 0, 30, 0, i64::MAX as u64), None);
}

#[test]
fn years_are_read_with_their_sign() {
    assert_eq!(scan_year(b"1970-", 0), Some((1970, 4)));
    assert_eq!(scan_year(b"-1970-", 0), Some((-1970, 5)));
    assert_eq!(scan_year(b"0", 0), Some((0, 1)));
    assert_eq!(scan_year(b"-0", 0), Some((0, 2)));
    assert_eq!(scan_year(b"00012", 0), Some((12, 5)));
    assert_eq!(scan_year(b"", 0), None);
    assert_eq!(scan_year(b"-", 0), None);
    assert_eq!(scan_year(b"--1", 0), None);
    assert_eq!(scan_year(b"+1", 0), None);
    assert_eq!(scan_year(b"x12", 1), Some((12, 2)));
    assert_eq!(scan_year(b"9223372036854775807", 0), Some((i64::MAX, 19)));
    assert_eq!(scan_year(b"9223372036854775808", 0), Some((i64::MAX, 19)));
    assert_eq!(scan_year(b"-9223372036854775808", 0), Some((-i64::MAX, 20)));
    assert_eq!(scan_year(b"99999999999999999999999999", 0), Some((i64::MAX, 26)));
    assert_eq!(scan_year(b"-99999999999999999999999999", 0), Some((-i64::MAX, 27)));
}

#[test]
fn offsets_are_a_sign_and_four_digits() {
    assert_eq!(scan_offset(b"+0000", 0), Some(5));
    assert_eq!(scan_offset(b"-1234rest", 0), Some(5));
    assert_eq!(scan_offset(b"x+0100", 1), Some(5));
    assert_eq!(scan_offset(b"+000", 0), None);
    assert_eq!(scan_offset(b"00000", 0), None);
    assert_eq!(scan_offset(b"+00:00", 0), None);
    assert_eq!(scan_offset(b"", 0), None);
}

#[test]
fn a_directive_sets_its_field() {
    let start = CivilTime::default();
    assert_eq!(scan_field(start, b'Y', b"2022", 0), Some((CivilTime { year: 2022, ..start }, 4)));
    assert_eq!(scan_field(start, b'm', b"11", 0), Some((CivilTime { month: 11, ..start }, 2)));
    assert_eq!(scan_field(start, b'd', b"22", 0), Some((CivilTime { day: 22, ..start }, 2)));
    assert_eq!(scan_field(start, b'H', b"10", 0), Some((CivilTime { hour: 10, ..start }, 2)));
    assert_eq!(scan_field(start, b'M', b"12", 0), Some((CivilTime { minute: 12, ..start }, 2)));
    assert_eq!(scan_field(start, b'S', b"30", 0), Some((CivilTime { second: 30, ..start }, 2)));
    assert_eq!(scan_field(start, b'b', b"nov", 0), Some((CivilTime { month: 11, ..start }, 3)));
    assert_eq!(scan_field(start, b'B', b"November", 0), Some((CivilTime { month: 11, ..start }, 8)));
    assert_eq!(scan_field(start, b'j', b"326", 0), Some((start, 3)));
    assert_eq!(scan_field(start, b'a', b"Tuesday", 0), Some((start, 7)));
    assert_eq!(scan_field(start, b'A', b"Tue", 0), Some((start, 3)));
    assert_eq!(scan_field(start, b'z', b"+0100", 0), Some((start, 5)));
    assert_eq!(scan_field(start, b'%', b"%", 0), Some((start, 1)));
    assert_eq!(scan_field(start, b'%', b"x", 0), None);
    assert_eq!(scan_field(start, b'%', b"", 0), None);
    assert_eq!(scan_field(start, b'm', b"x", 0), None);
}

#[test]
fn a_civil_time_is_read() {
    let c = parse_civil(b"2022-11-22 10:12:30", b"%Y-%m-%d %H:%M:%S").unwrap();
    assert_eq!((c.year, c.month, c.day, c.hour, c.minute, c.second), (2022, 11, 22, 10, 12, 30));
    assert_eq!((c.weekday, c.day_of_year, c.utc_offset), (1, 0, 0));
    assert_eq!(parse_civil(b"", b""), Ok(CivilTime::default()));
    assert_eq!(parse_civil(b"1900-02-29", b"%Y-%m-%d").unwrap().day, 29);
    assert_eq!(parse_civil(b"5 5", b"%Y %Y").unwrap().year, 5);
    assert_eq!(parse_civil(b"99999999999999999999", b"%Y").unwrap().year, i64::MAX);
    assert_eq!(parse_civil(b"99999999999999999999 7", b"%Y %Y").unwrap().year, 7);
    assert_eq!(parse_civil(b"not-a-date", b"%Y-%m-%d"), Err(Error::DateTimeParseError));
    assert_eq!(parse_civil(b"\xff1\x00", b"\xff%d\x00").unwrap().day, 1);
}

#[test]
fn conversions_on_bytes() {
    assert!(contains_nul(b"a\0b"));
    assert!(contains_nul(b"\0"));
    assert!(!contains_nul(b""));
    assert!(!contains_nul(b"ab"));
    assert_eq!(format_bytes(0, b"%Y\xff").unwrap(), b"1970\xff");
    assert_eq!(format_bytes(0, b"%Y\0"), Err(Error::FormatError));
    assert_eq!(format_bytes(i64::MAX, b"%Y"), Err(Error::TimestampToTmError));
    assert_eq!(format_bytes(i64::MIN, b"%Y\0"), Err(Error::TimestampToTmError));
    assert_eq!(format_bytes(67768036191676799, b"%Y").unwrap(), b"2147485547");
    assert_eq!(format_bytes(67768036191676800, b"%Y"), Err(Error::TimestampToTmError));
    assert_eq!(format_bytes(-67768040609740800, b"%Y").unwrap(), b"-2147481748");
    assert_eq!(format_bytes(-67768040609740801, b"%Y"), Err(Error::TimestampToTmError));
    assert_eq!(parse_bytes(b"1970\xff", b"%Y\xff"), Ok(0));
    assert_eq!(parse_bytes(b"1970\0", b"%Y\0"), Err(Error::FormatError));
    assert_eq!(parse_bytes(b"x", b"%Y"), Err(Error::DateTimeParseError));
    assert_eq!(parse_bytes(b"999999999999", b"%Y"), Err(Error::TimestampOverflowError));
}
