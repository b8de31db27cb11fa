use chrono::NaiveDateTime;
use strftime_utc::calendar::{FIRST_TIMESTAMP, FIRST_YEAR, LAST_TIMESTAMP, LAST_YEAR};
use strftime_utc::{parse_strftime, strftime_format, Error};

const FORMAT: &str = "%Y-%m-%d %H:%M:%S";

#[test]
fn test_parse_strftime() {
    let timestamp = parse_strftime("1970-01-01 00:00:00", "%Y-%m-%d %H:%M:%S").unwrap();
    let expected_timestamp =
        NaiveDateTime::parse_from_str("1970-01-01 00:00:00", "%Y-%m-%d %H:%M:%S")
            .unwrap()
            .and_utc()
            .timestamp();
    assert_eq!(timestamp, expected_timestamp);

    let timestamp = parse_strftime("1969-12-31 23:59:59", "%Y-%m-%d %H:%M:%S").unwrap();
    let expected_timestamp =
        NaiveDateTime::parse_from_str("1969-12-31 23:59:59", "%Y-%m-%d %H:%M:%S")
            .unwrap()
            .and_utc()
            .timestamp();
    assert_eq!(timestamp, expected_timestamp);

    let timestamp = parse_strftime("2022-11-22 10:12:30", "%Y-%m-%d %H:%M:%S").unwrap();
    let expected_timestamp =
        NaiveDateTime::parse_from_str("2022-11-22 10:12:30", "%Y-%m-%d %H:%M:%S")
            .unwrap()
            .and_utc()
            .timestamp();
    assert_eq!(timestamp, expected_timestamp);
}

#[test]
fn test_strftime_format() {
    let timestamp = NaiveDateTime::parse_from_str("1969-12-31 23:59:59", "%Y-%m-%d %H:%M:%S")
        .unwrap()
        .and_utc()
        .timestamp();
    let date_time = strftime_format(timestamp, "%Y-%m-%d %H:%M:%S").unwrap();
    assert_eq!(date_time, "1969-12-31 23:59:59");
}

#[test]
fn round_trip_over_representative_timestamps() {
    let samples: [i64; 14] = [
        -1,
        0,
        1,
        86399,
        86400,
        -86400,
        -86401,
        951782400,
        1669111950,
        2147483647,
        -2208988800,
        -62167219201,
        253402300799,
        -11670998400,
    ];
    for t in samples {
        let text = strftime_format(t, FORMAT).unwrap();
        assert_eq!(parse_strftime(&text, FORMAT), Ok(t), "{}", text);
    }
}

#[test]
fn round_trip_at_the_ends_of_the_range() {
    let text = strftime_format(LAST_TIMESTAMP, FORMAT).unwrap();
    assert_eq!(text, "2147485547-12-31 23:59:59");
    assert_eq!(parse_strftime(&text, FORMAT), Ok(LAST_TIMESTAMP));
    let text = strftime_format(FIRST_TIMESTAMP, FORMAT).unwrap();
    assert_eq!(text, "-2147481748-01-01 00:00:00");
    assert_eq!(parse_strftime(&text, FORMAT), Ok(FIRST_TIMESTAMP));
}

#[test]
fn a_year_beyond_32_bits_is_not_written() {
    assert_eq!(strftime_format(i64::MAX, "%Y-%m-%d %H:%M:%S"), Err(Error::TimestampToTmError));
    assert_eq!(strftime_format(i64::MIN, "%Y-%m-%d %H:%M:%S"), Err(Error::TimestampToTmError));
    assert_eq!(strftime_format(LAST_TIMESTAMP + 1, FORMAT), Err(Error::TimestampToTmError));
    assert_eq!(strftime_format(FIRST_TIMESTAMP - 1, FORMAT), Err(Error::TimestampToTmError));
    assert_eq!(strftime_format(LAST_TIMESTAMP + 1, ""), Err(Error::TimestampToTmError));
    assert_eq!(LAST_TIMESTAMP, 67768036191676799);
    assert_eq!(FIRST_TIMESTAMP, -67768040609740800);
    assert_eq!(LAST_YEAR, i32::MAX as i64 + 1900);
    assert_eq!(FIRST_YEAR, i32::MIN as i64 + 1900);
}

#[test]
fn the_year_is_looked_at_before_the_format() {
    assert_eq!(strftime_format(i64::MAX, "%Y\0"), Err(Error::TimestampToTmError));
    assert_eq!(strftime_format(LAST_TIMESTAMP, "%Y\0"), Err(Error::FormatError));
}

#[test]
fn leap_day_of_2000_is_written() {
    assert_eq!(strftime_format(951782400, FORMAT).unwrap(), "2000-02-29 00:00:00");
    assert_eq!(parse_strftime("2000-02-29 00:00:00", FORMAT), Ok(951782400));
}

#[test]
fn leap_day_of_1900_rolls_into_march() {
    assert_eq!(parse_strftime("1900-02-29 00:00:00", FORMAT), Ok(-2203891200));
    assert_eq!(parse_strftime("1900-03-01 00:00:00", FORMAT), Ok(-2203891200));
    assert_eq!(strftime_format(-2203891200, FORMAT).unwrap(), "1900-03-01 00:00:00");
}

#[test]
fn negative_timestamp_is_parsed() {
    assert_eq!(parse_strftime("1969-12-31 23:59:59", "%Y-%m-%d %H:%M:%S"), Ok(-1));
}

#[test]
fn epoch_is_parsed() {
    assert_eq!(parse_strftime("1970-01-01 00:00:00", "%Y-%m-%d %H:%M:%S"), Ok(0));
}

#[test]
fn known_instant_is_parsed() {
    assert_eq!(parse_strftime("2022-11-22 10:12:30", "%Y-%m-%d %H:%M:%S"), Ok(1669111950));
}

#[test]
fn malformed_input_is_rejected() {
    assert_eq!(
        parse_strftime("not-a-date", "%Y-%m-%d %H:%M:%S"),
        Err(Error::DateTimeParseError)
    );
}

#[test]
fn year_beyond_the_range_overflows() {
    assert_eq!(
        parse_strftime("292277026597-01-01 00:00:00", FORMAT),
        Err(Error::TimestampOverflowError)
    );
    assert_eq!(
        parse_strftime("-292277022658-01-01 00:00:00", FORMAT),
        Err(Error::TimestampOverflowError)
    );
    assert_eq!(
        parse_strftime("999999999999999999999999999999-01-01 00:00:00", FORMAT),
        Err(Error::TimestampOverflowError)
    );
    assert_eq!(
        parse_strftime("-999999999999999999999999999999-01-01 00:00:00", FORMAT),
        Err(Error::TimestampOverflowError)
    );
    assert_eq!(
        parse_strftime("292277026596-12-04 15:30:08", FORMAT),
        Err(Error::TimestampOverflowError)
    );
}

#[test]
fn year_of_nine_nines_still_fits() {
    assert_eq!(parse_strftime("999999999-01-01 00:00:00", FORMAT), Ok(31556889801244800));
}

#[test]
fn a_parse_error_comes_before_an_overflow() {
    assert_eq!(
        parse_strftime("999999999999999999999999999999-01-01 00:00", FORMAT),
        Err(Error::DateTimeParseError)
    );
}

#[test]
fn formatting_twice_gives_the_same_string() {
    for t in [-1i64, 0, 1669111950, LAST_TIMESTAMP, FIRST_TIMESTAMP] {
        let first = strftime_format(t, "%A, %d %B %Y %H:%M:%S %z (%j)").unwrap();
        let second = strftime_format(t, "%A, %d %B %Y %H:%M:%S %z (%j)").unwrap();
        assert_eq!(first.as_bytes(), second.as_bytes());
    }
    for t in [i64::MAX, i64::MIN] {
        assert_eq!(strftime_format(t, "%Y"), strftime_format(t, "%Y"));
    }
}

#[test]
fn nul_byte_is_a_format_error() {
    assert_eq!(strftime_format(0, "%Y\0"), Err(Error::FormatError));
    assert_eq!(parse_strftime("1970", "%Y\0"), Err(Error::FormatError));
    assert_eq!(parse_strftime("1970\0", "%Y"), Err(Error::FormatError));
    assert_eq!(parse_strftime("not-a-date\0", "%Y"), Err(Error::FormatError));
}

#[test]
fn empty_format_gives_empty_text() {
    assert_eq!(strftime_format(1669111950, "").unwrap(), "");
    assert_eq!(parse_strftime("", ""), Ok(-2208988800));
    assert_eq!(parse_strftime("x", ""), Err(Error::DateTimeParseError));
}

#[test]
fn all_directives_are_written() {
    assert_eq!(
        strftime_format(1669111950, "%a %A %b %B %d %H %j %m %M %S %Y %z %%").unwrap(),
        "Tue Tuesday Nov November 22 10 326 11 12 30 2022 +0000 %"
    );
    assert_eq!(strftime_format(0, "%A %j").unwrap(), "Thursday 001");
    assert_eq!(strftime_format(1735603200, "%a %j").unwrap(), "Tue 366");
    assert_eq!(strftime_format(-14182940, "%A %d %B %Y").unwrap(), "Sunday 20 July 1969");
}

#[test]
fn years_are_written_in_four_digits_or_more() {
    assert_eq!(strftime_format(-62135596800, "%Y").unwrap(), "0001");
    assert_eq!(strftime_format(-62167219200, "%Y").unwrap(), "0000");
    assert_eq!(strftime_format(-62167219201, "%Y-%m-%d").unwrap(), "-0001-12-31");
    assert_eq!(strftime_format(253402300800, "%Y").unwrap(), "10000");
}

#[test]
fn bytes_outside_directives_are_copied() {
    assert_eq!(strftime_format(0, "année %Y, 100%, %q %").unwrap(), "année 1970, 100%, %q %");
    assert_eq!(strftime_format(0, "%é%Y").unwrap(), "%é1970");
    assert_eq!(parse_strftime("année 1970, 100%, %q", "année %Y, 100%%, %q"), Ok(0));
}

#[test]
fn absent_fields_keep_the_start_of_1900() {
    assert_eq!(parse_strftime("", ""), Ok(-2208988800));
    assert_eq!(parse_strftime("1901", "%Y"), Ok(-2177452800));
    assert_eq!(parse_strftime("12-25 07", "%m-%d %H"), Ok(-2178032400));
}

#[test]
fn names_are_read_in_any_case() {
    assert_eq!(parse_strftime("20 JULY 1969", "%d %B %Y"), Ok(-14256000));
    assert_eq!(parse_strftime("20 jul 1969", "%d %b %Y"), Ok(-14256000));
    assert_eq!(parse_strftime("20 July 1969", "%d %b %Y"), Ok(-14256000));
    assert_eq!(parse_strftime("Sunday 20 Jul 1969", "%A %d %B %Y"), Ok(-14256000));
    assert_eq!(parse_strftime("sun 20 Jul 1969", "%a %d %B %Y"), Ok(-14256000));
    assert_eq!(parse_strftime("20 Juli 1969", "%d %B %Y"), Err(Error::DateTimeParseError));
    assert_eq!(parse_strftime("20 Brumaire 1969", "%d %B %Y"), Err(Error::DateTimeParseError));
}

#[test]
fn derived_fields_in_a_text_are_dropped() {
    assert_eq!(parse_strftime("Monday 1969-07-20", "%A %Y-%m-%d"), Ok(-14256000));
    assert_eq!(parse_strftime("1969-07-20 (001)", "%Y-%m-%d (%j)"), Ok(-14256000));
    assert_eq!(parse_strftime("1969-07-20 +0100", "%Y-%m-%d %z"), Ok(-14256000));
    assert_eq!(parse_strftime("1969-07-20 -0930", "%Y-%m-%d %z"), Ok(-14256000));
    assert_eq!(parse_strftime("1969-07-20 (367)", "%Y-%m-%d (%j)"), Err(Error::DateTimeParseError));
    assert_eq!(parse_strftime("1969-07-20 0100", "%Y-%m-%d %z"), Err(Error::DateTimeParseError));
    assert_eq!(parse_strftime("1969-07-20 +01:00", "%Y-%m-%d %z"), Err(Error::DateTimeParseError));
}

#[test]
fn fields_out_of_range_are_rejected() {
    assert_eq!(parse_strftime("2022-13-01", "%Y-%m-%d"), Err(Error::DateTimeParseError));
    assert_eq!(parse_strftime("2022-00-01", "%Y-%m-%d"), Err(Error::DateTimeParseError));
    assert_eq!(parse_strftime("2022-01-32", "%Y-%m-%d"), Err(Error::DateTimeParseError));
    assert_eq!(parse_strftime("2022-01-00", "%Y-%m-%d"), Err(Error::DateTimeParseError));
    assert_eq!(parse_strftime("24:00:00", "%H:%M:%S"), Err(Error::DateTimeParseError));
    assert_eq!(parse_strftime("23:60:00", "%H:%M:%S"), Err(Error::DateTimeParseError));
    assert_eq!(parse_strftime("23:59:61", "%H:%M:%S"), Err(Error::DateTimeParseError));
}

#[test]
fn second_sixty_is_the_next_minute() {
    assert_eq!(parse_strftime("1969-12-31 23:59:60", FORMAT), Ok(0));
}

#[test]
fn day_31_of_a_short_month_rolls_over() {
    assert_eq!(parse_strftime("2021-02-29", "%Y-%m-%d"), Ok(1614556800));
    assert_eq!(parse_strftime("2021-03-01", "%Y-%m-%d"), Ok(1614556800));
}

#[test]
fn trailing_or_missing_text_is_rejected() {
    assert_eq!(parse_strftime("1970-01-01 00:00:00 ", FORMAT), Err(Error::DateTimeParseError));
    assert_eq!(parse_strftime("1970-01-01 00:00:00Z", FORMAT), Err(Error::DateTimeParseError));
    assert_eq!(parse_strftime("1970-01-01 00:00", FORMAT), Err(Error::DateTimeParseError));
    assert_eq!(parse_strftime("1970-01-01T00:00:00", FORMAT), Err(Error::DateTimeParseError));
    assert_eq!(parse_strftime("", FORMAT), Err(Error::DateTimeParseError));
}

#[test]
fn numbers_may_be_short_but_take_the_longest_run() {
    assert_eq!(parse_strftime("1970-1-1 0:0:0", FORMAT), Ok(0));
    assert_eq!(parse_strftime("101230", "%H%M%S"), Ok(-2208988800 + 10 * 3600 + 12 * 60 + 30));
    assert_eq!(parse_strftime("19700101", "%Y%m%d"), Err(Error::DateTimeParseError));
    assert_eq!(parse_strftime("-1970", "%Y"), Ok(-124334352000));
    assert_eq!(parse_strftime("-", "%Y"), Err(Error::DateTimeParseError));
    assert_eq!(parse_strftime("+1970", "%Y"), Err(Error::DateTimeParseError));
}

#[test]
fn error_messages() {
    assert_eq!(Error::TimestampToTmError.message(), "Error converting timestamp to C tm.");
    assert_eq!(Error::DateTimeParseError.message(), "Error parsing date time.");
    assert_eq!(Error::TimestampOverflowError.message(), "Timestamp overflow error");
    assert_eq!(Error::FormatError.message(), "Formatting error");
}
