//! The names of the months and of the days of the week, in English, and how
//! a name is recognised in a text whatever its case.

use vstd::prelude::*;
use vstd::string::StringSliceAdditionalSpecFns;

verus! {

/// The full name of month `month` (1 to 12); `?` for anything else.
pub open spec fn month_name(month: int) -> Seq<u8> {
    if month == 1 {
        "January".spec_bytes()
    } else if month == 2 {
        "February".spec_bytes()
    } else if month == 3 {
        "March".spec_bytes()
    } else if month == 4 {
        "April".spec_bytes()
    } else if month == 5 {
        "May".spec_bytes()
    } else if month == 6 {
        "June".spec_bytes()
    } else if month == 7 {
        "July".spec_bytes()
    } else if month == 8 {
        "August".spec_bytes()
    } else if month == 9 {
        "September".spec_bytes()
    } else if month == 10 {
        "October".spec_bytes()
    } else if month == 11 {
        "November".spec_bytes()
    } else if month == 12 {
        "December".spec_bytes()
    } else {
        "?".spec_bytes()
    }
}

/// The three-letter name of month `month` (1 to 12); `?` for anything else.
pub open spec fn month_abbreviation(month: int) -> Seq<u8> {
    if month == 1 {
        "Jan".spec_bytes()
    } else if month == 2 {
        "Feb".spec_bytes()
    } else if month == 3 {
        "Mar".spec_bytes()
    } else if month == 4 {
        "Apr".spec_bytes()
    } else if month == 5 {
        "May".spec_bytes()
    } else if month == 6 {
        "Jun".spec_bytes()
    } else if month == 7 {
        "Jul".spec_bytes()
    } else if month == 8 {
        "Aug".spec_bytes()
    } else if month == 9 {
        "Sep".spec_bytes()
    } else if month == 10 {
        "Oct".spec_bytes()
    } else if month == 11 {
        "Nov".spec_bytes()
    } else if month == 12 {
        "Dec".spec_bytes()
    } else {
        "?".spec_bytes()
    }
}

/// The full name of weekday `weekday` (0 to 6, from Sunday); `?` for
/// anything else.
pub open spec fn weekday_name(weekday: int) -> Seq<u8> {
    if weekday == 0 {
        "Sunday".spec_bytes()
    } else if weekday == 1 {
        "Monday".spec_bytes()
    } else if weekday == 2 {
        "Tuesday".spec_bytes()
    } else if weekday == 3 {
        "Wednesday".spec_bytes()
    } else if weekday == 4 {
        "Thursday".spec_bytes()
    } else if weekday == 5 {
        "Friday".spec_bytes()
    } else if weekday == 6 {
        "Saturday".spec_bytes()
    } else {
        "?".spec_bytes()
    }
}

/// The three-letter name of weekday `weekday` (0 to 6, from Sunday); `?`
/// for anything else.
pub open spec fn weekday_abbreviation(weekday: int) -> Seq<u8> {
    if weekday == 0 {
        "Sun".spec_bytes()
    } else if weekday == 1 {
        "Mon".spec_bytes()
    } else if weekday == 2 {
        "Tue".spec_bytes()
    } else if weekday == 3 {
        "Wed".spec_bytes()
    } else if weekday == 4 {
        "Thu".spec_bytes()
    } else if weekday == 5 {
        "Fri".spec_bytes()
    } else if weekday == 6 {
        "Sat".spec_bytes()
    } else {
        "?".spec_bytes()
    }
}

/// A letter `A` to `Z` as its small letter; any other byte unchanged.
pub open spec fn lower(b: u8) -> u8 {
    if 'A' as u8 <= b <= 'Z' as u8 {
        (b + 32) as u8
    } else {
        b
    }
}

/// Whether `text` begins with `name`, letters compared without regard to
/// case.
pub open spec fn begins_with_name(text: Seq<u8>, name: Seq<u8>) -> bool {
    &&& name.len() <= text.len()
    &&& forall|i: int| 0 <= i < name.len() ==> lower(#[trigger] text[i]) == lower(name[i])
}

/// How many bytes of `text` a name takes that may be written in full or
/// short: the length of the full name if the text begins with it, else that
/// of the short one if the text begins with that, else nothing.
pub open spec fn name_at(text: Seq<u8>, full: Seq<u8>, short: Seq<u8>) -> Option<nat> {
    if begins_with_name(text, full) {
        Some(full.len())
    } else if begins_with_name(text, short) {
        Some(short.len())
    } else {
        None
    }
}

/// The first month from `month` on with whose name `text` begins, and the
/// number of bytes that the name takes.
pub open spec fn month_named_from(text: Seq<u8>, month: int) -> Option<(int, nat)>
    decreases 13 - month,
{
    if month > 12 {
        None
    } else {
        match name_at(text, month_name(month), month_abbreviation(month)) {
            Some(len) => Some((month, len)),
            None => month_named_from(text, month + 1),
        }
    }
}

/// The month with whose name `text` begins, and the number of bytes that
/// the name takes.
pub open spec fn month_named(text: Seq<u8>) -> Option<(int, nat)> {
    month_named_from(text, 1)
}

/// The first weekday from `weekday` on with whose name `text` begins, and
/// the number of bytes that the name takes.
pub open spec fn weekday_named_from(text: Seq<u8>, weekday: int) -> Option<(int, nat)>
    decreases 7 - weekday,
{
    if weekday > 6 {
        None
    } else {
        match name_at(text, weekday_name(weekday), weekday_abbreviation(weekday)) {
            Some(len) => Some((weekday, len)),
            None => weekday_named_from(text, weekday + 1),
        }
    }
}

/// The weekday with whose name `text` begins, and the number of bytes that
/// the name takes.
pub open spec fn weekday_named(text: Seq<u8>) -> Option<(int, nat)> {
    weekday_named_from(text, 0)
}

/// The full name of a month.
pub fn month_name_bytes(month: i64) -> (name: &'static [u8])
    ensures
        name@ == month_name(month as int),
{
    match month {
        1 => "January".as_bytes(),
        2 => "February".as_bytes(),
        3 => "March".as_bytes(),
        4 => "April".as_bytes(),
        5 => "May".as_bytes(),
        6 => "June".as_bytes(),
        7 => "July".as_bytes(),
        8 => "August".as_bytes(),
        9 => "September".as_bytes(),
        10 => "October".as_bytes(),
        11 => "November".as_bytes(),
        12 => "December".as_bytes(),
        _ => "?".as_bytes(),
    }
}

/// The three-letter name of a month.
pub fn month_abbreviation_bytes(month: i64) -> (name: &'static [u8])
    ensures
        name@ == month_abbreviation(month as int),
{
    match month {
        1 => "Jan".as_bytes(),
        2 => "Feb".as_bytes(),
        3 => "Mar".as_bytes(),
        4 => "Apr".as_bytes(),
        5 => "May".as_bytes(),
        6 => "Jun".as_bytes(),
        7 => "Jul".as_bytes(),
        8 => "Aug".as_bytes(),
        9 => "Sep".as_bytes(),
        10 => "Oct".as_bytes(),
        11 => "Nov".as_bytes(),
        12 => "Dec".as_bytes(),
        _ => "?".as_bytes(),
    }
}

/// The full name of a day of the week.
pub fn weekday_name_bytes(weekday: i64) -> (name: &'static [u8])
    ensures
        name@ == weekday_name(weekday as int),
{
    match weekday {
        0 => "Sunday".as_bytes(),
        1 => "Monday".as_bytes(),
        2 => "Tuesday".as_bytes(),
        3 => "Wednesday".as_bytes(),
        4 => "Thursday".as_bytes(),
        5 => "Friday".as_bytes(),
        6 => "Saturday".as_bytes(),
        _ => "?".as_bytes(),
    }
}

/// The three-letter name of a day of the week.
pub fn weekday_abbreviation_bytes(weekday: i64) -> (name: &'static [u8])
    ensures
        name@ == weekday_abbreviation(weekday as int),
{
    match weekday {
        0 => "Sun".as_bytes(),
        1 => "Mon".as_bytes(),
        2 => "Tue".as_bytes(),
        3 => "Wed".as_bytes(),
        4 => "Thu".as_bytes(),
        5 => "Fri".as_bytes(),
        6 => "Sat".as_bytes(),
        _ => "?".as_bytes(),
    }
}

/// A letter `A` to `Z` as its small letter; any other byte unchanged.
pub fn to_lower(b: u8) -> (r: u8)
    ensures
        r == lower(b),
{
    if 'A' as u8 <= b && b <= 'Z' as u8 {
        b + 32
    } else {
        b
    }
}

/// Whether the text from `start` on begins with `name`, whatever the case
/// of its letters.
pub fn begins_with(text: &[u8], start: usize, name: &[u8]) -> (r: bool)
    requires
        start <= text.len(),
    ensures
        r == begins_with_name(text@.skip(start as int), name@),
{
    if name.len() > text.len() - start {
        return false;
    }
    let mut i: usize = 0;
    while i < name.len()
        invariant
            start <= text.len(),
            name.len() <= text.len() - start,
            i <= name.len(),
            forall|j: int|
                0 <= j < i ==> lower(#[trigger] text@.skip(start as int)[j]) == lower(name@[j]),
        decreases name.len() - i,
    {
        if to_lower(text[start + i]) != to_lower(name[i]) {
            assert(text@.skip(start as int)[i as int] == text@[start + i]);
            return false;
        }
        assert(text@.skip(start as int)[i as int] == text@[start + i]);
        i = i + 1;
    }
    true
}

/// The number of bytes that a name takes in the text from `start` on, when
/// it may be written in full or short.
pub fn scan_name(text: &[u8], start: usize, full: &[u8], short: &[u8]) -> (r: Option<usize>)
    requires
        start <= text.len(),
    ensures
        match r {
            Some(len) => name_at(text@.skip(start as int), full@, short@) == Some(len as nat)
                && start + len <= text.len(),
            None => name_at(text@.skip(start as int), full@, short@) is None,
        },
{
    if begins_with(text, start, full) {
        Some(full.len())
    } else if begins_with(text, start, short) {
        Some(short.len())
    } else {
        None
    }
}

/// The month named in the text at `start`, and the length of the name.
pub fn scan_month_name(text: &[u8], start: usize) -> (r: Option<(i64, usize)>)
    requires
        start <= text.len(),
    ensures
        match r {
            Some((month, len)) => month_named(text@.skip(start as int)) == Some(
                (month as int, len as nat),
            ) && 1 <= month <= 12 && start + len <= text.len(),
            None => month_named(text@.skip(start as int)) is None,
        },
{
    let mut month: i64 = 1;
    while month <= 12
        invariant
            start <= text.len(),
            1 <= month <= 13,
            month_named(text@.skip(start as int)) == month_named_from(
                text@.skip(start as int),
                month as int,
            ),
        decreases 13 - month,
    {
        match scan_name(text, start, month_name_bytes(month), month_abbreviation_bytes(month)) {
            Some(len) => {
                return Some((month, len));
            },
            None => {},
        }
        month = month + 1;
    }
    None
}

/// The weekday named in the text at `start`, and the length of the name.
pub fn scan_weekday_name(text: &[u8], start: usize) -> (r: Option<(i64, usize)>)
    requires
        start <= text.len(),
    ensures
        match r {
            Some((weekday, len)) => weekday_named(text@.skip(start as int)) == Some(
                (weekday as int, len as nat),
            ) && 0 <= weekday <= 6 && start + len <= text.len(),
            None => weekday_named(text@.skip(start as int)) is None,
        },
{
    let mut weekday: i64 = 0;
    while weekday <= 6
        invariant
            start <= text.len(),
            0 <= weekday <= 7,
            weekday_named(text@.skip(start as int)) == weekday_named_from(
                text@.skip(start as int),
                weekday as int,
            ),
        decreases 7 - weekday,
    {
        match scan_name(
            text,
            start,
            weekday_name_bytes(weekday),
            weekday_abbreviation_bytes(weekday),
        ) {
            Some(len) => {
                return Some((weekday, len));
            },
            None => {},
        }
        weekday = weekday + 1;
    }
    None
}

/// Appends `bytes` to `out`.
pub fn push_bytes(out: &mut Vec<u8>, bytes: &[u8])
    ensures
        final(out)@ == old(out)@ + bytes@,
{
    let mut i: usize = 0;
    while i < bytes.len()
        invariant
            i <= bytes.len(),
            out@ == old(out)@ + bytes@.take(i as int),
        decreases bytes.len() - i,
    {
        out.push(bytes[i]);
        i = i + 1;
        assert(out@ =~= old(out)@ + bytes@.take(i as int));
    }
    assert(bytes@.take(bytes.len() as int) =~= bytes@);
}

} // verus!
