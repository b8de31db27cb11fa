//! The proleptic Gregorian calendar, and civil time counted against the
//! Unix epoch.
//!
//! Days are numbered from 1970-01-01, which is day 0 and a Thursday. Months
//! are numbered 1 to 12, days of the month from 1, years as written (1969,
//! not 69), weekdays from Sunday = 0 and days of the year from 0.

use crate::arith::{div_floor, mod_floor};
use crate::error::Error;
use vstd::arithmetic::div_mod::{lemma_fundamental_div_mod, lemma_fundamental_div_mod_converse};
use vstd::prelude::*;

verus! {

/// The first year that can be written: a C `tm` counts the year from 1900
/// in 32 bits, and this is the least it reaches.
pub const FIRST_YEAR: i64 = -2147481748;

/// The last year that can be written: 1900 and the largest 32-bit number.
pub const LAST_YEAR: i64 = 2147485547;

/// The first second of [`FIRST_YEAR`].
pub const FIRST_TIMESTAMP: i64 = -67768040609740800;

/// The last second of [`LAST_YEAR`].
pub const LAST_TIMESTAMP: i64 = 67768036191676799;

/// A year is a leap year if 4 divides it, unless 100 does and 400 does not.
pub open spec fn is_leap_year(year: int) -> bool {
    year % 4 == 0 && (year % 100 != 0 || year % 400 == 0)
}

/// The number of days of a year.
pub open spec fn days_in_year(year: int) -> int {
    if is_leap_year(year) {
        366
    } else {
        365
    }
}

/// The number of days of month `month` (1 to 12) in a leap or a common year.
pub open spec fn month_length(leap: bool, month: int) -> int {
    if month == 2 {
        if leap {
            29
        } else {
            28
        }
    } else if month == 4 || month == 6 || month == 9 || month == 11 {
        30
    } else {
        31
    }
}

/// The number of days of the year that lie before the first of `month`:
/// the lengths of the months before it, added up. For `month` 13 this is
/// the length of the year.
pub open spec fn month_start(leap: bool, month: int) -> int
    decreases month,
{
    if month <= 1 {
        0
    } else {
        month_start(leap, month - 1) + month_length(leap, month - 1)
    }
}

/// The number of leap years from year 1 up to, not including, `year`. For
/// `year` below 1 it is negative or zero, and the difference of two values
/// still counts the leap years in between.
pub open spec fn leap_years_before(year: int) -> int {
    (year - 1) / 4 - (year - 1) / 100 + (year - 1) / 400
}

/// The number of the day on which `year` begins: the days from 1970-01-01
/// to its first of January, negative before 1970.
pub open spec fn days_before_year(year: int) -> int {
    365 * (year - 1970) + leap_years_before(year) - leap_years_before(1970)
}

/// The weekday of a day number, Sunday = 0. Day 0 was a Thursday.
pub open spec fn weekday_of_day(day: int) -> int {
    (day + 4) % 7
}

/// Civil time as a mathematical value: every field an unbounded integer.
///
/// `second`, `minute`, `hour`, `day`, `month` and `year` determine the
/// instant. `weekday` and `day_of_year` are derived from them and only ever
/// read, and `utc_offset` is zero for every value this library produces.
pub struct Civil {
    pub second: int,
    pub minute: int,
    pub hour: int,
    pub day: int,
    pub month: int,
    pub year: int,
    pub weekday: int,
    pub day_of_year: int,
    pub utc_offset: int,
}

impl Civil {
    /// The year in which the date falls once a month outside 1 to 12 has
    /// been carried into the year: month 13 is January of the next year,
    /// month 0 is December of the year before.
    pub open spec fn carried_year(self) -> int {
        (self.year * 12 + (self.month - 1)) / 12
    }

    /// The month, 1 to 12, that goes with [`Civil::carried_year`].
    pub open spec fn carried_month(self) -> int {
        (self.year * 12 + (self.month - 1)) % 12 + 1
    }

    /// The day number of the date. A day of the month outside the month
    /// counts on from its first: the 32nd of January is the 1st of
    /// February, the 0th of March the last of February.
    pub open spec fn day_number(self) -> int {
        days_before_year(self.carried_year()) + month_start(
            is_leap_year(self.carried_year()),
            self.carried_month(),
        ) + (self.day - 1)
    }

    /// The seconds from the epoch to this civil time. Only the six primary
    /// fields are read, and each may lie outside its usual range: hours,
    /// minutes and seconds count on in the same way as days do.
    pub open spec fn timestamp(self) -> int {
        self.day_number() * 86400 + self.hour * 3600 + self.minute * 60 + self.second
    }

    /// Whether the year, counted from 1900, fits in the 32 bits that a C
    /// `tm` has for it.
    pub open spec fn fits_tm(self) -> bool {
        FIRST_YEAR <= self.year <= LAST_YEAR
    }

    /// The form in which a timestamp is decomposed: every primary field in
    /// its range, the day within its month, the derived fields in agreement
    /// with the date, and no offset from UTC.
    pub open spec fn is_canonical(self) -> bool {
        &&& 0 <= self.second <= 59
        &&& 0 <= self.minute <= 59
        &&& 0 <= self.hour <= 23
        &&& 1 <= self.month <= 12
        &&& 1 <= self.day <= month_length(is_leap_year(self.year), self.month)
        &&& self.weekday == weekday_of_day(self.day_number())
        &&& self.day_of_year == month_start(is_leap_year(self.year), self.month) + self.day - 1
        &&& self.utc_offset == 0
    }
}

/// The civil time in UTC that a timestamp names: the canonical one that
/// converts back to it. [`lemma_canonical_unique`] shows that there is at
/// most one, [`CivilTime::from_timestamp`] computes it.
pub open spec fn civil_of(timestamp: int) -> Civil {
    choose|c: Civil| c.is_canonical() && c.timestamp() == timestamp
}

/// The civil time from which parsing starts and which an absent directive
/// leaves in place: 1900-01-01 00:00:00, a Monday.
pub open spec fn default_civil() -> Civil {
    Civil {
        second: 0,
        minute: 0,
        hour: 0,
        day: 1,
        month: 1,
        year: 1900,
        weekday: 1,
        day_of_year: 0,
        utc_offset: 0,
    }
}

/// Civil time in machine integers. Its view is the [`Civil`] with the same
/// field values.
#[derive(Debug, Clone, Copy, PartialEq, Eq, Structural)]
pub struct CivilTime {
    /// Seconds after the minute, 0 to 59 (60 is accepted when parsing).
    pub second: i64,
    /// Minutes after the hour, 0 to 59.
    pub minute: i64,
    /// Hours since midnight, 0 to 23.
    pub hour: i64,
    /// Day of the month, 1 to 31.
    pub day: i64,
    /// Month of the year, 1 to 12.
    pub month: i64,
    /// The year as written: 1969, not 69.
    pub year: i64,
    /// Days since Sunday, 0 to 6. Derived; never read when converting to a
    /// timestamp.
    pub weekday: i64,
    /// Days since the first of January, 0 to 365. Derived; never read when
    /// converting to a timestamp.
    pub day_of_year: i64,
    /// Seconds east of UTC. Always zero.
    pub utc_offset: i64,
}

impl View for CivilTime {
    type V = Civil;

    open spec fn view(&self) -> Civil {
        Civil {
            second: self.second as int,
            minute: self.minute as int,
            hour: self.hour as int,
            day: self.day as int,
            month: self.month as int,
            year: self.year as int,
            weekday: self.weekday as int,
            day_of_year: self.day_of_year as int,
            utc_offset: self.utc_offset as int,
        }
    }
}

impl Default for CivilTime {
    /// 1900-01-01 00:00:00.
    fn default() -> (c: CivilTime)
        ensures
            c@ == default_civil(),
    {
        CivilTime {
            second: 0,
            minute: 0,
            hour: 0,
            day: 1,
            month: 1,
            year: 1900,
            weekday: 1,
            day_of_year: 0,
            utc_offset: 0,
        }
    }
}

/// Counting the multiples of `d` up to a number goes up by one exactly at
/// a multiple of `d`.
pub proof fn lemma_multiples_before(x: int, d: int)
    requires
        d > 0,
    ensures
        x / d - (x - 1) / d == if x % d == 0 {
            1int
        } else {
            0
        },
{
    let q = (x - 1) / d;
    let r = (x - 1) % d;
    lemma_fundamental_div_mod(x - 1, d);
    if r + 1 < d {
        assert(x == q * d + (r + 1)) by (nonlinear_arith)
            requires
                x - 1 == d * q + r,
        ;
        lemma_fundamental_div_mod_converse(x, d, q, r + 1);
    } else {
        assert(x == (q + 1) * d + 0) by (nonlinear_arith)
            requires
                x - 1 == d * q + r,
                r + 1 == d,
        ;
        lemma_fundamental_div_mod_converse(x, d, q + 1, 0);
    }
}

/// The year 1970 begins on day 0, and each year begins as many days after
/// the one before as that one is long: together these fix
/// [`days_before_year`] for every year.
pub proof fn lemma_days_before_year_step(year: int)
    ensures
        days_before_year(1970) == 0,
        days_before_year(year + 1) == days_before_year(year) + days_in_year(year),
{
    lemma_multiples_before(year, 4);
    lemma_multiples_before(year, 100);
    lemma_multiples_before(year, 400);
    assert(year % 100 == 0 ==> year % 4 == 0) by {
        assert(year == 100 * (year / 100) + year % 100);
    }
    assert(year % 400 == 0 ==> year % 100 == 0) by {
        assert(year == 400 * (year / 400) + year % 400);
    }
    let fours = year / 4 - (year - 1) / 4;
    let hundreds = year / 100 - (year - 1) / 100;
    let four_hundreds = year / 400 - (year - 1) / 400;
    assert(leap_years_before(year + 1) - leap_years_before(year) == fours - hundreds
        + four_hundreds);
    assert(days_before_year(year + 1) - days_before_year(year) == 365 + fours - hundreds
        + four_hundreds);
}

/// The start of each month, written out.
pub proof fn lemma_month_start_values(leap: bool)
    ensures
        month_start(leap, 1) == 0,
        month_start(leap, 2) == 31,
        month_start(leap, 3) == 59 + if leap { 1int } else { 0 },
        month_start(leap, 4) == 90 + if leap { 1int } else { 0 },
        month_start(leap, 5) == 120 + if leap { 1int } else { 0 },
        month_start(leap, 6) == 151 + if leap { 1int } else { 0 },
        month_start(leap, 7) == 181 + if leap { 1int } else { 0 },
        month_start(leap, 8) == 212 + if leap { 1int } else { 0 },
        month_start(leap, 9) == 243 + if leap { 1int } else { 0 },
        month_start(leap, 10) == 273 + if leap { 1int } else { 0 },
        month_start(leap, 11) == 304 + if leap { 1int } else { 0 },
        month_start(leap, 12) == 334 + if leap { 1int } else { 0 },
        month_start(leap, 13) == 365 + if leap { 1int } else { 0 },
{
    reveal_with_fuel(month_start, 14);
}

/// Later years begin on later days.
pub proof fn lemma_days_before_year_increases(a: int, b: int)
    requires
        a < b,
    ensures
        days_before_year(a) + days_in_year(a) <= days_before_year(b),
{
}

/// A year has 146097 / 400 days on average, and the day on which a year
/// begins is never far from that many days per year since 1970.
pub proof fn lemma_days_before_year_bounds(year: int)
    ensures
        146097 * (year - 1970) - 506 <= 400 * days_before_year(year) <= 146097 * (year - 1970)
            + 589,
{
    let x = year - 1;
    let a = x / 4;
    let b = x / 100;
    let c = x / 400;
    assert(x - 3 <= 4 * a <= x);
    assert(x - 99 <= 100 * b <= x);
    assert(x - 399 <= 400 * c <= x);
    assert(days_before_year(year) == 365 * (year - 1970) + (a - b + c) - 477);
}

/// The year guessed from the average length of a year is within one year
/// of the year in which the day falls.
proof fn lemma_year_guess(day: int)
    ensures
        days_before_year(1970 + (day * 400) / 146097 - 1) <= day,
        day < days_before_year(1970 + (day * 400) / 146097 + 2),
{
    let q = (day * 400) / 146097;
    let r = (day * 400) % 146097;
    assert(day * 400 == 146097 * q + r && 0 <= r < 146097);
    lemma_days_before_year_bounds(1970 + q - 1);
    lemma_days_before_year_bounds(1970 + q + 2);
}

/// A canonical civil time is the only one for its timestamp: two of them
/// that name the same second agree in every field.
pub proof fn lemma_canonical_unique(a: Civil, b: Civil)
    requires
        a.is_canonical(),
        b.is_canonical(),
        a.timestamp() == b.timestamp(),
    ensures
        a == b,
{
    lemma_canonical_day(a);
    lemma_canonical_day(b);
    let da = a.day_number();
    let db = b.day_number();
    let sa = a.hour * 3600 + a.minute * 60 + a.second;
    let sb = b.hour * 3600 + b.minute * 60 + b.second;
    assert(0 <= sa < 86400 && 0 <= sb < 86400);
    assert(da == db);
    assert(sa == sb);
    assert(a.hour == b.hour);
    assert(a.minute == b.minute);
    if a.year < b.year {
        lemma_days_before_year_increases(a.year, b.year);
    }
    if b.year < a.year {
        lemma_days_before_year_increases(b.year, a.year);
    }
    assert(a.year == b.year);
    let leap = is_leap_year(a.year);
    lemma_month_start_values(leap);
    assert(a.month == b.month);
}

/// In a canonical civil time no month is carried, and the day of the year
/// lies within the year.
pub proof fn lemma_canonical_day(c: Civil)
    requires
        c.is_canonical(),
    ensures
        c.carried_year() == c.year,
        c.carried_month() == c.month,
        c.day_number() == days_before_year(c.year) + c.day_of_year,
        0 <= c.day_of_year < days_in_year(c.year),
{
    lemma_month_start_values(is_leap_year(c.year));
}

/// The month in which the day at place `day_of_year` of a year falls,
/// looked for from `month` downwards.
pub open spec fn month_containing(leap: bool, day_of_year: int, month: int) -> int
    decreases month,
{
    if month <= 1 || month_start(leap, month) <= day_of_year {
        month
    } else {
        month_containing(leap, day_of_year, month - 1)
    }
}

/// Every day of a year lies in one of its twelve months.
pub proof fn lemma_month_containing(leap: bool, day_of_year: int)
    requires
        0 <= day_of_year < month_start(leap, 13),
    ensures
        1 <= month_containing(leap, day_of_year, 12) <= 12,
        month_start(leap, month_containing(leap, day_of_year, 12)) <= day_of_year,
        day_of_year < month_start(leap, month_containing(leap, day_of_year, 12) + 1),
{
    lemma_month_start_values(leap);
    reveal_with_fuel(month_containing, 13);
}

/// Every day lies in a year: there is one that begins on or before it
/// and ends after it.
pub proof fn lemma_year_containing(day: int) -> (year: int)
    ensures
        days_before_year(year) <= day < days_before_year(year + 1),
{
    let guess = 1970 + (day * 400) / 146097;
    lemma_year_guess(day);
    lemma_days_before_year_step(guess - 1);
    lemma_days_before_year_step(guess);
    lemma_days_before_year_step(guess + 1);
    if day < days_before_year(guess) {
        guess - 1
    } else if day >= days_before_year(guess + 1) {
        guess + 1
    } else {
        guess
    }
}

/// A second of the day, 0 to 86399, is made of an hour, a minute and a
/// second in their ranges.
pub proof fn lemma_time_of_day(rest: int)
    requires
        0 <= rest < 86400,
    ensures
        0 <= rest / 3600 <= 23,
        0 <= (rest / 60) % 60 <= 59,
        0 <= rest % 60 <= 59,
        (rest / 3600) * 3600 + ((rest / 60) % 60) * 60 + rest % 60 == rest,
{
}

/// Every timestamp has a civil time: [`civil_of`] is canonical and converts
/// back to the timestamp.
pub proof fn lemma_civil_of(timestamp: int)
    ensures
        civil_of(timestamp).is_canonical(),
        civil_of(timestamp).timestamp() == timestamp,
{
    let day = timestamp / 86400;
    let rest = timestamp % 86400;
    let year = lemma_year_containing(day);
    lemma_days_before_year_step(year);
    let day_of_year = day - days_before_year(year);
    let leap = is_leap_year(year);
    lemma_month_start_values(leap);
    lemma_month_containing(leap, day_of_year);
    lemma_time_of_day(rest);
    let month = month_containing(leap, day_of_year, 12);
    let c = Civil {
        second: rest % 60,
        minute: (rest / 60) % 60,
        hour: rest / 3600,
        day: day_of_year - month_start(leap, month) + 1,
        month,
        year,
        weekday: weekday_of_day(day),
        day_of_year,
        utc_offset: 0,
    };
    assert(c.carried_year() == year && c.carried_month() == month);
    assert(c.day_number() == day);
    assert(c.timestamp() == timestamp);
    assert(c.day <= month_length(leap, month)) by {
        reveal_with_fuel(month_start, 2);
    }
    assert(c.is_canonical());
}

/// The timestamps whose year fits a C `tm` are those from the first second
/// of [`FIRST_YEAR`] to the last second of [`LAST_YEAR`].
pub proof fn lemma_fits_tm(timestamp: int)
    ensures
        civil_of(timestamp).fits_tm() <==> FIRST_TIMESTAMP <= timestamp <= LAST_TIMESTAMP,
{
    let c = civil_of(timestamp);
    lemma_civil_of(timestamp);
    lemma_canonical_day(c);
    let day = c.day_number();
    assert(day * 86400 <= timestamp < (day + 1) * 86400);
    assert(days_before_year(FIRST_YEAR as int) * 86400 == FIRST_TIMESTAMP);
    assert(days_before_year(LAST_YEAR + 1) * 86400 == LAST_TIMESTAMP + 1);
    lemma_days_before_year_step(c.year);
    if c.year < FIRST_YEAR {
        lemma_days_before_year_increases(c.year, FIRST_YEAR as int);
    }
    if c.year > FIRST_YEAR {
        lemma_days_before_year_increases(FIRST_YEAR as int, c.year);
    }
    if c.year < LAST_YEAR + 1 {
        lemma_days_before_year_increases(c.year, LAST_YEAR + 1);
    }
    if c.year > LAST_YEAR + 1 {
        lemma_days_before_year_increases(LAST_YEAR + 1, c.year);
    }
}

/// Whether `year` is a leap year.
pub fn leap_year(year: i64) -> (leap: bool)
    ensures
        leap == is_leap_year(year as int),
{
    let y: i128 = year as i128;
    mod_floor(y, 4) == 0 && (mod_floor(y, 100) != 0 || mod_floor(y, 400) == 0)
}

/// The number of days before the first of `month` in a leap or common year.
pub fn days_before_month(leap: bool, month: i64) -> (days: i64)
    requires
        1 <= month <= 13,
    ensures
        days == month_start(leap, month as int),
{
    proof {
        lemma_month_start_values(leap);
    }
    let common: i64 = if month == 1 {
        0
    } else if month == 2 {
        31
    } else if month == 3 {
        59
    } else if month == 4 {
        90
    } else if month == 5 {
        120
    } else if month == 6 {
        151
    } else if month == 7 {
        181
    } else if month == 8 {
        212
    } else if month == 9 {
        243
    } else if month == 10 {
        273
    } else if month == 11 {
        304
    } else if month == 12 {
        334
    } else {
        365
    };
    if leap && month > 2 {
        common + 1
    } else {
        common
    }
}

/// The day number on which `year` begins, in 128 bits so that it has room
/// for every 64-bit year.
fn first_day_of_year(year: i128) -> (day: i128)
    requires
        -0x1_0000_0000_0000_0000_0000 <= year <= 0x1_0000_0000_0000_0000_0000,
    ensures
        day == days_before_year(year as int),
{
    let y: i128 = year - 1;
    365 * (year - 1970) + (div_floor(y, 4) - div_floor(y, 100) + div_floor(y, 400)) - 477
}

/// The year in which day number `day` falls, and the day's place in that
/// year counted from 0.
pub fn year_of_day(day: i64) -> (r: (i64, i64))
    ensures
        days_before_year(r.0 as int) <= day < days_before_year(r.0 as int + 1),
        r.1 == day - days_before_year(r.0 as int),
        0 <= r.1 < days_in_year(r.0 as int),
{
    let d: i128 = day as i128;
    // A year has 146097 / 400 days on average, which places the guess within
    // one year of the answer.
    let guess: i128 = 1970 + div_floor(d * 400, 146097);
    let start: i128 = first_day_of_year(guess);
    let next: i128 = first_day_of_year(guess + 1);
    let year: i128 = if d < start {
        guess - 1
    } else if d >= next {
        guess + 1
    } else {
        guess
    };
    let first: i128 = first_day_of_year(year);
    proof {
        lemma_year_guess(day as int);
        lemma_days_before_year_step(guess as int - 1);
        lemma_days_before_year_step(guess as int);
        lemma_days_before_year_step(guess as int + 1);
        lemma_days_before_year_step(year as int);
        lemma_days_before_year_bounds(year as int);
    }
    ((year as i64), ((d - first) as i64))
}

/// The month, 1 to 12, in which the day at place `day_of_year` (from 0) of
/// a leap or common year falls.
pub fn month_of_day(leap: bool, day_of_year: i64) -> (month: i64)
    requires
        0 <= day_of_year < month_start(leap, 13),
    ensures
        1 <= month <= 12,
        month_start(leap, month as int) <= day_of_year < month_start(leap, month as int + 1),
{
    let mut month: i64 = 12;
    while days_before_month(leap, month) > day_of_year
        invariant
            1 <= month <= 12,
            0 <= day_of_year < month_start(leap, month as int + 1),
        decreases month,
    {
        proof {
            lemma_month_start_values(leap);
        }
        month = month - 1;
    }
    month
}

impl CivilTime {
    /// Decomposes a timestamp into the civil time in UTC that it names.
    ///
    /// The result is canonical and converts back to `timestamp`; by
    /// [`lemma_canonical_unique`] it is the only civil time of which both
    /// hold. Every 64-bit timestamp has one.
    pub fn from_timestamp(timestamp: i64) -> (c: CivilTime)
        ensures
            c@.is_canonical(),
            c@.timestamp() == timestamp,
            c@ == civil_of(timestamp as int),
    {
        let t: i128 = timestamp as i128;
        let day: i128 = div_floor(t, 86400);
        let rest: i128 = mod_floor(t, 86400);
        let (year, day_of_year) = year_of_day(day as i64);
        let leap = leap_year(year);
        proof {
            lemma_month_start_values(leap);
        }
        let month: i64 = month_of_day(leap, day_of_year);
        let day_of_month: i64 = day_of_year - days_before_month(leap, month) + 1;
        let c = CivilTime {
            second: (rest % 60) as i64,
            minute: ((rest / 60) % 60) as i64,
            hour: (rest / 3600) as i64,
            day: day_of_month,
            month,
            year,
            weekday: mod_floor(day + 4, 7) as i64,
            day_of_year,
            utc_offset: 0,
        };
        assert(c@.carried_year() == year && c@.carried_month() == month);
        assert(c@.day_number() == day);
        proof {
            let found = c@;
            assert(found.is_canonical() && found.timestamp() == timestamp as int);
            lemma_canonical_unique(found, civil_of(timestamp as int));
        }
        c
    }

    /// Whether the year, counted from 1900, fits in 32 bits.
    pub fn fits_tm(&self) -> (r: bool)
        ensures
            r == self@.fits_tm(),
    {
        FIRST_YEAR <= self.year && self.year <= LAST_YEAR
    }

    /// The timestamp of this civil time, read as UTC.
    ///
    /// Only the six primary fields count. A field outside its usual range is
    /// carried into the next larger one, as [`Civil::timestamp`] says: month
    /// 13 is January of the following year, the 29th of February in a common
    /// year is the 1st of March, second 60 is second 0 of the next minute.
    /// The one error is `TimestampOverflowError`, returned exactly when the
    /// timestamp does not fit in 64 bits.
    pub fn to_timestamp(&self) -> (r: Result<i64, Error>)
        ensures
            match r {
                Ok(t) => t == self@.timestamp(),
                Err(e) => e == Error::TimestampOverflowError && !(i64::MIN <= self@.timestamp()
                    <= i64::MAX),
            },
    {
        let months: i128 = (self.year as i128) * 12 + (self.month as i128 - 1);
        let year: i128 = div_floor(months, 12);
        let month: i128 = mod_floor(months, 12) + 1;
        let leap: bool = mod_floor(year, 4) == 0 && (mod_floor(year, 100) != 0 || mod_floor(
            year,
            400,
        ) == 0);
        let day: i128 = first_day_of_year(year) + (days_before_month(leap, month as i64) as i128)
            + (self.day as i128 - 1);
        let t: i128 = day * 86400 + (self.hour as i128) * 3600 + (self.minute as i128) * 60 + (
        self.second as i128);
        if t < (i64::MIN as i128) || t > (i64::MAX as i128) {
            Err(Error::TimestampOverflowError)
        } else {
            Ok(t as i64)
        }
    }
}

} // verus!
