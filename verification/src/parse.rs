//! Reading a civil time out of a text as a format string directs.
//!
//! Format and text are walked together. A byte of the format that belongs
//! to no directive must stand in the text as it is. A directive takes from
//! the text the longest run of bytes that can belong to its field:
//!
//! | directive | takes | sets |
//! |---|---|---|
//! | `%Y` | an optional `-`, then every digit that follows (at least one) | year |
//! | `%m` | one or two digits, 1 to 12 | month |
//! | `%d` | one or two digits, 1 to 31 | day of the month |
//! | `%H` | one or two digits, 0 to 23 | hour |
//! | `%M` | one or two digits, 0 to 59 | minute |
//! | `%S` | one or two digits, 0 to 60 | second |
//! | `%j` | one to three digits, 1 to 366 | nothing |
//! | `%a`, `%A` | a weekday's full or short name, in any case | nothing |
//! | `%b`, `%B` | a month's full or short name, in any case | month |
//! | `%z` | `+` or `-` and four digits | nothing |
//! | `%%` | `%` | nothing |
//!
//! The text must end where the format ends. A field that no directive sets
//! keeps its value from 1900-01-01 00:00:00. The weekday, the day of the
//! year and the offset from UTC are never set from the text: what is read
//! for them is checked for its shape and dropped.

use crate::calendar::{default_civil, Civil, CivilTime};
use crate::decimal::{decimal_value, digit_run, is_digit, is_digit_byte, scan_digits};
use crate::error::Error;
use crate::names::{
    month_named, month_named_from, scan_month_name, scan_weekday_name, weekday_named,
};
use crate::render::{begins_with_directive, is_directive, is_directive_byte};
use vstd::prelude::*;

verus! {

/// A number at the start of `text`: its digits, at most `limit` of them,
/// if there is at least one and their value lies from `lo` to `hi`. The
/// result is the value and the number of digits.
pub open spec fn number_at(text: Seq<u8>, limit: nat, lo: int, hi: int) -> Option<(int, nat)> {
    let len = digit_run(text, limit);
    let value = decimal_value(text.take(len as int));
    if len >= 1 && lo <= value <= hi {
        Some((value as int, len))
    } else {
        None
    }
}

/// A year at the start of `text`: every digit that stands there, after a
/// `-` for a negative year. The result is the year and the number of bytes.
pub open spec fn year_at(text: Seq<u8>) -> Option<(int, nat)> {
    if text.len() > 0 && text[0] == '-' as u8 {
        let len = digit_run(text.skip(1), text.len());
        if len >= 1 {
            Some((-(decimal_value(text.subrange(1, 1 + len as int)) as int), 1 + len))
        } else {
            None
        }
    } else {
        let len = digit_run(text, text.len());
        if len >= 1 {
            Some((decimal_value(text.take(len as int)) as int, len))
        } else {
            None
        }
    }
}

/// An offset from UTC at the start of `text`: a sign and four digits. The
/// result is the number of bytes, always five.
pub open spec fn offset_at(text: Seq<u8>) -> Option<nat> {
    if text.len() >= 5 && (text[0] == '+' as u8 || text[0] == '-' as u8) && is_digit(text[1])
        && is_digit(text[2]) && is_digit(text[3]) && is_digit(text[4]) {
        Some(5)
    } else {
        None
    }
}

/// What a directive reads at the start of `text`: the civil time `c` with
/// the directive's field set, and the number of bytes read; nothing if the
/// text does not begin with such a field.
pub open spec fn read_field(c: Civil, directive: u8, text: Seq<u8>) -> Option<(Civil, nat)> {
    if directive == 'Y' as u8 {
        match year_at(text) {
            Some((v, n)) => Some((Civil { year: v, ..c }, n)),
            None => None,
        }
    } else if directive == 'm' as u8 {
        match number_at(text, 2, 1, 12) {
            Some((v, n)) => Some((Civil { month: v, ..c }, n)),
            None => None,
        }
    } else if directive == 'd' as u8 {
        match number_at(text, 2, 1, 31) {
            Some((v, n)) => Some((Civil { day: v, ..c }, n)),
            None => None,
        }
    } else if directive == 'H' as u8 {
        match number_at(text, 2, 0, 23) {
            Some((v, n)) => Some((Civil { hour: v, ..c }, n)),
            None => None,
        }
    } else if directive == 'M' as u8 {
        match number_at(text, 2, 0, 59) {
            Some((v, n)) => Some((Civil { minute: v, ..c }, n)),
            None => None,
        }
    } else if directive == 'S' as u8 {
        match number_at(text, 2, 0, 60) {
            Some((v, n)) => Some((Civil { second: v, ..c }, n)),
            None => None,
        }
    } else if directive == 'j' as u8 {
        match number_at(text, 3, 1, 366) {
            Some((v, n)) => Some((c, n)),
            None => None,
        }
    } else if directive == 'a' as u8 || directive == 'A' as u8 {
        match weekday_named(text) {
            Some((v, n)) => Some((c, n)),
            None => None,
        }
    } else if directive == 'b' as u8 || directive == 'B' as u8 {
        match month_named(text) {
            Some((v, n)) => Some((Civil { month: v, ..c }, n)),
            None => None,
        }
    } else if directive == 'z' as u8 {
        match offset_at(text) {
            Some(n) => Some((c, n)),
            None => None,
        }
    } else {
        if text.len() > 0 && text[0] == '%' as u8 {
            Some((c, 1))
        } else {
            None
        }
    }
}

/// The civil time that `format` reads out of `text`, starting from `c`;
/// nothing if the text does not have the shape that the format describes.
pub open spec fn parse_from(c: Civil, text: Seq<u8>, format: Seq<u8>) -> Option<Civil>
    decreases format.len(),
{
    if format.len() == 0 {
        if text.len() == 0 {
            Some(c)
        } else {
            None
        }
    } else if begins_with_directive(format) {
        match read_field(c, format[1], text) {
            Some((next, n)) => parse_from(next, text.skip(n as int), format.skip(2)),
            None => None,
        }
    } else if text.len() > 0 && text[0] == format[0] {
        parse_from(c, text.skip(1), format.skip(1))
    } else {
        None
    }
}

/// The civil time that `format` reads out of `text`.
pub open spec fn parse(text: Seq<u8>, format: Seq<u8>) -> Option<Civil> {
    parse_from(default_civil(), text, format)
}

/// Whether the fields that can be read from a text lie in the ranges that
/// the directives accept.
pub open spec fn in_read_ranges(c: Civil) -> bool {
    &&& 0 <= c.second <= 60
    &&& 0 <= c.minute <= 59
    &&& 0 <= c.hour <= 23
    &&& 1 <= c.day <= 31
    &&& 1 <= c.month <= 12
}

/// A year brought into the range of a machine integer: one beyond the
/// largest 64-bit number, or below its negative, becomes that number.
pub open spec fn clamped(year: int) -> int {
    if year > i64::MAX {
        i64::MAX as int
    } else if year < -i64::MAX {
        -i64::MAX
    } else {
        year
    }
}

/// The civil time with its year clamped.
pub open spec fn clamp_year(c: Civil) -> Civil {
    Civil { year: clamped(c.year), ..c }
}

/// The number that stands in the text at `at`, as [`number_at`] reads it.
pub fn scan_number(text: &[u8], at: usize, limit: usize, lo: u64, hi: u64) -> (r: Option<
    (i64, usize),
>)
    requires
        at <= text.len(),
        hi <= i64::MAX,
    ensures
        match number_at(text@.skip(at as int), limit as nat, lo as int, hi as int) {
            Some((v, n)) => r == Some((v as i64, n as usize)) && at + n <= text.len() && lo <= v
                <= hi,
            None => r is None,
        },
{
    let run = scan_digits(text, at, limit);
    proof {
        assert(text@.skip(at as int).take(run.len as int) =~= text@.subrange(
            at as int,
            at + run.len,
        ));
    }
    if run.len >= 1 && run.fits && lo <= run.value && run.value <= hi {
        Some((run.value as i64, run.len))
    } else {
        None
    }
}

/// The year that stands in the text at `at`, as [`year_at`] reads it, and
/// clamped to what 64 bits hold.
pub fn scan_year(text: &[u8], at: usize) -> (r: Option<(i64, usize)>)
    requires
        at <= text.len(),
    ensures
        match year_at(text@.skip(at as int)) {
            Some((v, n)) => r == Some((clamped(v) as i64, n as usize)) && at + n <= text.len(),
            None => r is None,
        },
{
    let ghost rest = text@.skip(at as int);
    let limit: usize = text.len() - at;
    if at < text.len() && text[at] == '-' as u8 {
        let run = scan_digits(text, at + 1, limit);
        proof {
            assert(rest[0] == text@[at as int]);
            assert(rest.skip(1) =~= text@.skip(at + 1));
            assert(rest.subrange(1, 1 + run.len) =~= text@.subrange(at + 1, at + 1 + run.len));
        }
        if run.len == 0 {
            None
        } else if run.fits && run.value <= i64::MAX as u64 {
            Some((-(run.value as i64), 1 + run.len))
        } else {
            Some((-i64::MAX, 1 + run.len))
        }
    } else {
        let run = scan_digits(text, at, limit);
        proof {
            if at < text.len() {
                assert(rest[0] == text@[at as int]);
            }
            assert(rest.take(run.len as int) =~= text@.subrange(at as int, at + run.len));
        }
        if run.len == 0 {
            None
        } else if run.fits && run.value <= i64::MAX as u64 {
            Some((run.value as i64, run.len))
        } else {
            Some((i64::MAX, run.len))
        }
    }
}

/// The length of the offset from UTC that stands in the text at `at`, as
/// [`offset_at`] reads it.
pub fn scan_offset(text: &[u8], at: usize) -> (r: Option<usize>)
    requires
        at <= text.len(),
    ensures
        match offset_at(text@.skip(at as int)) {
            Some(n) => r == Some(n as usize) && at + n <= text.len(),
            None => r is None,
        },
{
    let ghost rest = text@.skip(at as int);
    if text.len() - at < 5 {
        return None;
    }
    proof {
        assert(rest[0] == text@[at as int]);
        assert(rest[1] == text@[at + 1]);
        assert(rest[2] == text@[at + 2]);
        assert(rest[3] == text@[at + 3]);
        assert(rest[4] == text@[at + 4]);
    }
    if (text[at] == '+' as u8 || text[at] == '-' as u8) && is_digit_byte(text[at + 1])
        && is_digit_byte(text[at + 2]) && is_digit_byte(text[at + 3]) && is_digit_byte(
        text[at + 4],
    ) {
        Some(5)
    } else {
        None
    }
}

/// What `directive` reads in the text at `at`, as [`read_field`] does: the
/// civil time with the field set, a year that was read clamped, and the
/// number of bytes read.
pub fn scan_field(c: CivilTime, directive: u8, text: &[u8], at: usize) -> (r: Option<
    (CivilTime, usize),
>)
    requires
        is_directive(directive),
        at <= text.len(),
    ensures
        match read_field(c@, directive, text@.skip(at as int)) {
            Some((next, n)) => {
                &&& r matches Some((found, len))
                &&& found@ == if directive == 'Y' as u8 {
                    clamp_year(next)
                } else {
                    next
                }
                &&& len == n
                &&& at + n <= text.len()
            },
            None => r is None,
        },
{
    let ghost rest = text@.skip(at as int);
    let mut found = c;
    let len: usize;
    if directive == 'Y' as u8 {
        match scan_year(text, at) {
            Some((v, n)) => {
                found.year = v;
                len = n;
            },
            None => {
                return None;
            },
        }
    } else if directive == 'm' as u8 {
        match scan_number(text, at, 2, 1, 12) {
            Some((v, n)) => {
                found.month = v;
                len = n;
            },
            None => {
                return None;
            },
        }
    } else if directive == 'd' as u8 {
        match scan_number(text, at, 2, 1, 31) {
            Some((v, n)) => {
                found.day = v;
                len = n;
            },
            None => {
                return None;
            },
        }
    } else if directive == 'H' as u8 {
        match scan_number(text, at, 2, 0, 23) {
            Some((v, n)) => {
                found.hour = v;
                len = n;
            },
            None => {
                return None;
            },
        }
    } else if directive == 'M' as u8 {
        match scan_number(text, at, 2, 0, 59) {
            Some((v, n)) => {
                found.minute = v;
                len = n;
            },
            None => {
                return None;
            },
        }
    } else if directive == 'S' as u8 {
        match scan_number(text, at, 2, 0, 60) {
            Some((v, n)) => {
                found.second = v;
                len = n;
            },
            None => {
                return None;
            },
        }
    } else if directive == 'j' as u8 {
        match scan_number(text, at, 3, 1, 366) {
            Some((v, n)) => {
                len = n;
            },
            None => {
                return None;
            },
        }
    } else if directive == 'a' as u8 || directive == 'A' as u8 {
        match scan_weekday_name(text, at) {
            Some((v, n)) => {
                len = n;
            },
            None => {
                return None;
            },
        }
    } else if directive == 'b' as u8 || directive == 'B' as u8 {
        match scan_month_name(text, at) {
            Some((v, n)) => {
                found.month = v;
                len = n;
            },
            None => {
                return None;
            },
        }
    } else if directive == 'z' as u8 {
        match scan_offset(text, at) {
            Some(n) => {
                len = n;
            },
            None => {
                return None;
            },
        }
    } else {
        if at < text.len() && text[at] == '%' as u8 {
            assert(rest[0] == text@[at as int]);
            len = 1;
        } else {
            proof {
                if at < text.len() {
                    assert(rest[0] == text@[at as int]);
                }
            }
            return None;
        }
    }
    Some((found, len))
}

/// Reading a field leaves every field within the ranges that the directives
/// accept, and the year's clamping can be done before or after.
pub proof fn lemma_read_field(c: Civil, directive: u8, text: Seq<u8>)
    requires
        in_read_ranges(c),
    ensures
        match read_field(c, directive, text) {
            Some((next, n)) => {
                &&& in_read_ranges(next)
                &&& read_field(clamp_year(c), directive, text) matches Some((other, m))
                &&& m == n
                &&& clamp_year(other) == clamp_year(next)
                &&& directive != 'Y' as u8 ==> other == clamp_year(next)
            },
            None => read_field(clamp_year(c), directive, text) is None,
        },
{
    if directive == 'b' as u8 || directive == 'B' as u8 {
        lemma_month_named_range(text, 1);
    }
}

/// A month found by name is one of 1 to 12.
pub proof fn lemma_month_named_range(text: Seq<u8>, month: int)
    requires
        1 <= month,
    ensures
        month_named_from(text, month) matches Some((m, n)) ==> month <= m <= 12,
    decreases 13 - month,
{
    if month <= 12 {
        lemma_month_named_range(text, month + 1);
    }
}

/// Reads a civil time out of `text` as `format` directs.
///
/// The result is `DateTimeParseError` exactly when the text does not have
/// the shape that the format describes. Otherwise it is the civil time that
/// [`parse`] defines, its fields within the ranges that the directives
/// accept, with a year that 64 bits cannot hold clamped to the nearest one
/// that they can. The derived fields are those of 1900-01-01 and say
/// nothing of the date that was read.
pub fn parse_civil(text: &[u8], format: &[u8]) -> (r: Result<CivilTime, Error>)
    ensures
        match parse(text@, format@) {
            Some(c) => {
                &&& r matches Ok(found)
                &&& found@ == clamp_year(c)
                &&& in_read_ranges(c)
            },
            None => r == Err::<CivilTime, Error>(Error::DateTimeParseError),
        },
{
    let mut found: CivilTime = CivilTime::default();
    let ghost mut acc: Civil = default_civil();
    let mut t: usize = 0;
    let mut f: usize = 0;
    assert(text@.skip(0) =~= text@);
    assert(format@.skip(0) =~= format@);
    while f < format.len()
        invariant
            t <= text.len(),
            f <= format.len(),
            found@ == clamp_year(acc),
            in_read_ranges(acc),
            parse_from(acc, text@.skip(t as int), format@.skip(f as int)) == parse(
                text@,
                format@,
            ),
        decreases format.len() - f,
    {
        let ghost rest = format@.skip(f as int);
        let ghost input = text@.skip(t as int);
        assert(rest[0] == format@[f as int]);
        if format[f] == '%' as u8 && format.len() - f >= 2 && is_directive_byte(format[f + 1]) {
            assert(rest[1] == format@[f + 1]);
            assert(rest.skip(2) =~= format@.skip(f + 2));
            proof {
                lemma_read_field(acc, rest[1], input);
            }
            match scan_field(found, format[f + 1], text, t) {
                Some((next, n)) => {
                    proof {
                        acc = read_field(acc, rest[1], input).unwrap().0;
                        assert(input.skip(n as int) =~= text@.skip(t + n));
                    }
                    found = next;
                    t = t + n;
                    f = f + 2;
                },
                None => {
                    return Err(Error::DateTimeParseError);
                },
            }
        } else {
            proof {
                if rest.len() >= 2 {
                    assert(rest[1] == format@[f + 1]);
                }
                if t < text.len() {
                    assert(input[0] == text@[t as int]);
                }
            }
            if t < text.len() && text[t] == format[f] {
                assert(rest.skip(1) =~= format@.skip(f + 1));
                assert(input.skip(1) =~= text@.skip(t + 1));
                t = t + 1;
                f = f + 1;
            } else {
                return Err(Error::DateTimeParseError);
            }
        }
    }
    if t == text.len() {
        Ok(found)
    } else {
        Err(Error::DateTimeParseError)
    }
}

} // verus!
