//! Writing a civil time as a format string directs.
//!
//! A format string is read byte by byte. A `%` followed by the letter of a
//! directive stands for a field of the civil time; every other byte,
//! a `%` before anything else included, stands for itself.
//!
//! | directive | field | written as |
//! |---|---|---|
//! | `%Y` | year | at least four digits, `-` in front if negative |
//! | `%m` | month | two digits, `01` to `12` |
//! | `%d` | day of the month | two digits, `01` to `31` |
//! | `%H` | hour | two digits, `00` to `23` |
//! | `%M` | minute | two digits, `00` to `59` |
//! | `%S` | second | two digits, `00` to `60` |
//! | `%j` | day of the year | three digits, `001` to `366` |
//! | `%a`, `%A` | weekday | its short or full name |
//! | `%b`, `%B` | month | its short or full name |
//! | `%z` | offset from UTC | `+0000` |
//! | `%%` | | `%` |

use crate::calendar::{Civil, CivilTime};
use crate::decimal::{push_signed, signed};
use crate::names::{
    month_abbreviation, month_abbreviation_bytes, month_name, month_name_bytes, push_bytes,
    weekday_abbreviation, weekday_abbreviation_bytes, weekday_name, weekday_name_bytes,
};
use vstd::prelude::*;
use vstd::string::StringSliceAdditionalSpecFns;

verus! {

/// Whether a byte after `%` makes a directive.
pub open spec fn is_directive(b: u8) -> bool {
    ||| b == 'Y' as u8
    ||| b == 'm' as u8
    ||| b == 'd' as u8
    ||| b == 'H' as u8
    ||| b == 'M' as u8
    ||| b == 'S' as u8
    ||| b == 'j' as u8
    ||| b == 'a' as u8
    ||| b == 'A' as u8
    ||| b == 'b' as u8
    ||| b == 'B' as u8
    ||| b == 'z' as u8
    ||| b == '%' as u8
}

/// What a directive writes for a civil time. A number is written whatever
/// its value; a month or weekday outside its range has the name `?`.
pub open spec fn field_text(c: Civil, directive: u8) -> Seq<u8> {
    if directive == 'Y' as u8 {
        signed(c.year, 4)
    } else if directive == 'm' as u8 {
        signed(c.month, 2)
    } else if directive == 'd' as u8 {
        signed(c.day, 2)
    } else if directive == 'H' as u8 {
        signed(c.hour, 2)
    } else if directive == 'M' as u8 {
        signed(c.minute, 2)
    } else if directive == 'S' as u8 {
        signed(c.second, 2)
    } else if directive == 'j' as u8 {
        signed(c.day_of_year + 1, 3)
    } else if directive == 'a' as u8 {
        weekday_abbreviation(c.weekday)
    } else if directive == 'A' as u8 {
        weekday_name(c.weekday)
    } else if directive == 'b' as u8 {
        month_abbreviation(c.month)
    } else if directive == 'B' as u8 {
        month_name(c.month)
    } else if directive == 'z' as u8 {
        "+0000".spec_bytes()
    } else {
        seq!['%' as u8]
    }
}

/// Whether `format` begins with a directive.
pub open spec fn begins_with_directive(format: Seq<u8>) -> bool {
    format.len() >= 2 && format[0] == '%' as u8 && is_directive(format[1])
}

/// The text that `format` yields for the civil time `c`.
pub open spec fn render(c: Civil, format: Seq<u8>) -> Seq<u8>
    decreases format.len(),
{
    if format.len() == 0 {
        Seq::empty()
    } else if begins_with_directive(format) {
        field_text(c, format[1]) + render(c, format.skip(2))
    } else {
        seq![format[0]] + render(c, format.skip(1))
    }
}

/// Whether `b` after `%` makes a directive.
pub fn is_directive_byte(b: u8) -> (r: bool)
    ensures
        r == is_directive(b),
{
    b == 'Y' as u8 || b == 'm' as u8 || b == 'd' as u8 || b == 'H' as u8 || b == 'M' as u8 || b
        == 'S' as u8 || b == 'j' as u8 || b == 'a' as u8 || b == 'A' as u8 || b == 'b' as u8 || b
        == 'B' as u8 || b == 'z' as u8 || b == '%' as u8
}

/// Appends to `out` what `directive` writes for `c`.
pub fn push_field(out: &mut Vec<u8>, c: &CivilTime, directive: u8)
    requires
        is_directive(directive),
    ensures
        final(out)@ == old(out)@ + field_text(c@, directive),
{
    if directive == 'Y' as u8 {
        push_signed(out, c.year as i128, 4);
    } else if directive == 'm' as u8 {
        push_signed(out, c.month as i128, 2);
    } else if directive == 'd' as u8 {
        push_signed(out, c.day as i128, 2);
    } else if directive == 'H' as u8 {
        push_signed(out, c.hour as i128, 2);
    } else if directive == 'M' as u8 {
        push_signed(out, c.minute as i128, 2);
    } else if directive == 'S' as u8 {
        push_signed(out, c.second as i128, 2);
    } else if directive == 'j' as u8 {
        push_signed(out, c.day_of_year as i128 + 1, 3);
    } else if directive == 'a' as u8 {
        push_bytes(out, weekday_abbreviation_bytes(c.weekday));
    } else if directive == 'A' as u8 {
        push_bytes(out, weekday_name_bytes(c.weekday));
    } else if directive == 'b' as u8 {
        push_bytes(out, month_abbreviation_bytes(c.month));
    } else if directive == 'B' as u8 {
        push_bytes(out, month_name_bytes(c.month));
    } else if directive == 'z' as u8 {
        push_bytes(out, "+0000".as_bytes());
    } else {
        out.push('%' as u8);
        assert(final(out)@ =~= old(out)@ + field_text(c@, directive));
    }
}

/// Writes `c` as `format` directs.
pub fn render_civil(c: &CivilTime, format: &[u8]) -> (out: Vec<u8>)
    ensures
        out@ == render(c@, format@),
{
    let mut out: Vec<u8> = Vec::new();
    let mut at: usize = 0;
    assert(format@.skip(0) =~= format@);
    while at < format.len()
        invariant
            at <= format.len(),
            out@ + render(c@, format@.skip(at as int)) == render(c@, format@),
        decreases format.len() - at,
    {
        let ghost rest = format@.skip(at as int);
        let ghost before = out@;
        assert(rest[0] == format@[at as int]);
        if format[at] == '%' as u8 && format.len() - at >= 2 && is_directive_byte(format[at + 1]) {
            assert(rest[1] == format@[at + 1]);
            assert(rest.skip(2) =~= format@.skip(at + 2));
            push_field(&mut out, c, format[at + 1]);
            at = at + 2;
            assert(out@ + render(c@, format@.skip(at as int)) =~= before + render(c@, rest));
        } else {
            proof {
                if rest.len() >= 2 {
                    assert(rest[1] == format@[at + 1]);
                }
            }
            assert(rest.skip(1) =~= format@.skip(at + 1));
            out.push(format[at]);
            at = at + 1;
            assert(out@ + render(c@, format@.skip(at as int)) =~= before + render(c@, rest));
        }
    }
    assert(out@ + Seq::<u8>::empty() =~= out@);
    out
}

} // verus!
