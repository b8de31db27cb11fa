//! What is written in the format `%Y-%m-%d %H:%M:%S` is read back as the
//! same instant.

use crate::calendar::{
    civil_of, default_civil, lemma_civil_of, lemma_fits_tm, Civil, FIRST_TIMESTAMP,
    LAST_TIMESTAMP,
};
use crate::decimal::{
    digit_run, is_digit, lemma_decimal_short, lemma_digit_run, lemma_padded,
    lemma_signed_bytes, padded, signed,
};
use crate::error::Error;
use crate::parse::{in_read_ranges, number_at, parse, parse_from, read_field, year_at};
use crate::render::{begins_with_directive, field_text, is_directive, render};
use crate::strings::{format_outcome, formatted, has_nul, parse_outcome};
use vstd::prelude::*;
use vstd::string::StringSliceAdditionalSpecFns;

verus! {

/// The format `%Y-%m-%d %H:%M:%S`.
pub open spec fn date_time_format() -> Seq<u8> {
    "%Y-%m-%d %H:%M:%S".spec_bytes()
}

/// A format that begins with a directive writes the directive's field and
/// then what the rest of the format writes.
pub proof fn lemma_render_directive(c: Civil, directive: u8, rest: Seq<u8>)
    requires
        is_directive(directive),
    ensures
        render(c, seq!['%' as u8, directive] + rest) == field_text(c, directive) + render(
            c,
            rest,
        ),
{
    let format = seq!['%' as u8, directive] + rest;
    assert(format.skip(2) =~= rest);
    assert(begins_with_directive(format));
}

/// A format that begins with a byte other than `%` writes that byte and
/// then what the rest of the format writes.
pub proof fn lemma_render_literal(c: Civil, b: u8, rest: Seq<u8>)
    requires
        b != '%' as u8,
    ensures
        render(c, seq![b] + rest) == seq![b] + render(c, rest),
{
    let format = seq![b] + rest;
    assert(format.skip(1) =~= rest);
    assert(!begins_with_directive(format));
}

/// Where the text begins with a field that a directive reads in full, a
/// format that begins with that directive reads the field and goes on with
/// the rest of both.
pub proof fn lemma_parse_directive(
    c: Civil,
    next: Civil,
    directive: u8,
    field: Seq<u8>,
    text: Seq<u8>,
    format: Seq<u8>,
)
    requires
        is_directive(directive),
        read_field(c, directive, field + text) == Some((next, field.len())),
    ensures
        parse_from(c, field + text, seq!['%' as u8, directive] + format) == parse_from(
            next,
            text,
            format,
        ),
{
    let whole = seq!['%' as u8, directive] + format;
    assert(whole.skip(2) =~= format);
    assert(begins_with_directive(whole));
    assert((field + text).skip(field.len() as int) =~= text);
}

/// Where text and format begin with the same byte other than `%`, reading
/// goes on with the rest of both.
pub proof fn lemma_parse_literal(c: Civil, b: u8, text: Seq<u8>, format: Seq<u8>)
    requires
        b != '%' as u8,
    ensures
        parse_from(c, seq![b] + text, seq![b] + format) == parse_from(c, text, format),
{
    let whole = seq![b] + format;
    assert(whole.skip(1) =~= format);
    assert(!begins_with_directive(whole));
    assert((seq![b] + text).skip(1) =~= text);
}

/// A number from 0 to 99 written in two digits is read back, whatever
/// follows it.
pub proof fn lemma_two_digits_read_back(v: int, rest: Seq<u8>, lo: int, hi: int)
    requires
        0 <= v <= 99,
        lo <= v <= hi,
    ensures
        signed(v, 2).len() == 2,
        number_at(signed(v, 2) + rest, 2, lo, hi) == Some((v, 2nat)),
{
    let field = signed(v, 2);
    let text = field + rest;
    lemma_padded(v as nat, 2);
    lemma_decimal_short(v as nat);
    assert(field.len() == 2);
    assert(is_digit(text[0]) && is_digit(text[1])) by {
        assert(text[0] == field[0]);
        assert(text[1] == field[1]);
    }
    assert(digit_run(text, 2) == 2) by {
        reveal_with_fuel(digit_run, 3);
        assert(text.skip(1)[0] == text[1]);
    }
    assert(text.take(2) =~= field);
}

/// A year written in four digits or more is read back, if what follows it
/// does not begin with a digit.
pub proof fn lemma_year_read_back(v: int, rest: Seq<u8>)
    requires
        rest.len() == 0 || !is_digit(rest[0]),
    ensures
        year_at(signed(v, 4) + rest) == Some((v, signed(v, 4).len())),
{
    let text = signed(v, 4) + rest;
    if v < 0 {
        let digits = padded((-v) as nat, 4);
        let count = digits.len();
        lemma_padded((-v) as nat, 4);
        let tail = text.skip(1);
        assert(text[0] == '-' as u8);
        assert(tail =~= digits + rest);
        assert forall|i: int| 0 <= i < count implies is_digit(#[trigger] tail[i]) by {
            assert(tail[i] == digits[i]);
        }
        if count < tail.len() {
            assert(tail[count as int] == rest[0]);
        }
        lemma_digit_run(tail, count, text.len());
        assert(text.subrange(1, 1 + count as int) =~= digits);
    } else {
        let digits = padded(v as nat, 4);
        let count = digits.len();
        lemma_padded(v as nat, 4);
        assert forall|i: int| 0 <= i < count implies is_digit(#[trigger] text[i]) by {
            assert(text[i] == digits[i]);
        }
        assert(text[0] == digits[0]);
        if count < text.len() {
            assert(text[count as int] == rest[0]);
        }
        lemma_digit_run(text, count, text.len());
        assert(text.take(count as int) =~= digits);
    }
}

/// The text that the format `%Y-%m-%d %H:%M:%S` writes: the six fields with
/// their separators.
pub open spec fn date_time_text(c: Civil) -> Seq<u8> {
    signed(c.year, 4) + (seq!['-' as u8] + (signed(c.month, 2) + (seq!['-' as u8] + (signed(
        c.day,
        2,
    ) + (seq![' ' as u8] + (signed(c.hour, 2) + (seq![':' as u8] + (signed(c.minute, 2) + (
    seq![':' as u8] + (signed(c.second, 2) + Seq::<u8>::empty()))))))))))
}

/// The format `%Y-%m-%d %H:%M:%S`, directive by directive.
pub open spec fn date_time_parts() -> Seq<u8> {
    seq!['%' as u8, 'Y' as u8] + (seq!['-' as u8] + (seq!['%' as u8, 'm' as u8] + (seq![
        '-' as u8,
    ] + (seq!['%' as u8, 'd' as u8] + (seq![' ' as u8] + (seq!['%' as u8, 'H' as u8] + (seq![
        ':' as u8,
    ] + (seq!['%' as u8, 'M' as u8] + (seq![':' as u8] + (seq!['%' as u8, 'S' as u8]
        + Seq::<u8>::empty()))))))))))
}

/// The format is made of its parts.
pub proof fn lemma_date_time_format()
    ensures
        date_time_format() == date_time_parts(),
        !has_nul(date_time_format()),
{
    reveal_strlit("%Y-%m-%d %H:%M:%S");
    vstd::string::is_ascii_spec_bytes("%Y-%m-%d %H:%M:%S");
    assert(date_time_format() =~= date_time_parts());
}

/// The civil time read from a text in which all six fields stand: the
/// fields of `c`, and the derived fields of 1900-01-01.
pub open spec fn as_read(c: Civil) -> Civil {
    Civil {
        second: c.second,
        minute: c.minute,
        hour: c.hour,
        day: c.day,
        month: c.month,
        year: c.year,
        ..default_civil()
    }
}

/// A civil time whose fields lie in their ranges is written in the format
/// `%Y-%m-%d %H:%M:%S` as its six fields with their separators, without a
/// NUL byte, and read in the same format it comes back with the same six
/// fields.
pub proof fn lemma_date_time_round_trip(c: Civil)
    requires
        in_read_ranges(c),
    ensures
        render(c, date_time_format()) == date_time_text(c),
        parse(render(c, date_time_format()), date_time_format()) == Some(as_read(c)),
        !has_nul(render(c, date_time_format())),
{
    lemma_date_time_format();
    let e = Seq::<u8>::empty();
    let f5 = seq!['%' as u8, 'S' as u8] + e;
    let g4 = seq![':' as u8] + f5;
    let f4 = seq!['%' as u8, 'M' as u8] + g4;
    let g3 = seq![':' as u8] + f4;
    let f3 = seq!['%' as u8, 'H' as u8] + g3;
    let g2 = seq![' ' as u8] + f3;
    let f2 = seq!['%' as u8, 'd' as u8] + g2;
    let g1 = seq!['-' as u8] + f2;
    let f1 = seq!['%' as u8, 'm' as u8] + g1;
    let g0 = seq!['-' as u8] + f1;
    let t5 = signed(c.second, 2) + e;
    let u4 = seq![':' as u8] + t5;
    let t4 = signed(c.minute, 2) + u4;
    let u3 = seq![':' as u8] + t4;
    let t3 = signed(c.hour, 2) + u3;
    let u2 = seq![' ' as u8] + t3;
    let t2 = signed(c.day, 2) + u2;
    let u1 = seq!['-' as u8] + t2;
    let t1 = signed(c.month, 2) + u1;
    let u0 = seq!['-' as u8] + t1;
    let t0 = signed(c.year, 4) + u0;
    let s0 = default_civil();
    let s1 = Civil { year: c.year, ..s0 };
    let s2 = Civil { month: c.month, ..s1 };
    let s3 = Civil { day: c.day, ..s2 };
    let s4 = Civil { hour: c.hour, ..s3 };
    let s5 = Civil { minute: c.minute, ..s4 };
    let s6 = Civil { second: c.second, ..s5 };
    lemma_render_directive(c, 'S' as u8, e);
    lemma_render_literal(c, ':' as u8, f5);
    lemma_render_directive(c, 'M' as u8, g4);
    lemma_render_literal(c, ':' as u8, f4);
    lemma_render_directive(c, 'H' as u8, g3);
    lemma_render_literal(c, ' ' as u8, f3);
    lemma_render_directive(c, 'd' as u8, g2);
    lemma_render_literal(c, '-' as u8, f2);
    lemma_render_directive(c, 'm' as u8, g1);
    lemma_render_literal(c, '-' as u8, f1);
    lemma_render_directive(c, 'Y' as u8, g0);
    assert(render(c, date_time_parts()) == t0);
    assert(s6 == as_read(c));
    assert(parse_from(s6, e, e) == Some(s6));
    lemma_two_digits_read_back(c.second, e, 0, 60);
    lemma_parse_directive(s5, s6, 'S' as u8, signed(c.second, 2), e, e);
    lemma_parse_literal(s5, ':' as u8, t5, f5);
    lemma_two_digits_read_back(c.minute, u4, 0, 59);
    lemma_parse_directive(s4, s5, 'M' as u8, signed(c.minute, 2), u4, g4);
    lemma_parse_literal(s4, ':' as u8, t4, f4);
    lemma_two_digits_read_back(c.hour, u3, 0, 23);
    lemma_parse_directive(s3, s4, 'H' as u8, signed(c.hour, 2), u3, g3);
    lemma_parse_literal(s3, ' ' as u8, t3, f3);
    lemma_two_digits_read_back(c.day, u2, 1, 31);
    lemma_parse_directive(s2, s3, 'd' as u8, signed(c.day, 2), u2, g2);
    lemma_parse_literal(s2, '-' as u8, t2, f2);
    lemma_two_digits_read_back(c.month, u1, 1, 12);
    lemma_parse_directive(s1, s2, 'm' as u8, signed(c.month, 2), u1, g1);
    lemma_parse_literal(s1, '-' as u8, t1, f1);
    assert(u0[0] == '-' as u8);
    lemma_year_read_back(c.year, u0);
    lemma_parse_directive(s0, s1, 'Y' as u8, signed(c.year, 4), u0, g0);
    assert(parse_from(s0, t0, date_time_parts()) == Some(s6));
    lemma_signed_bytes(c.year, 4);
    lemma_signed_bytes(c.month, 2);
    lemma_signed_bytes(c.day, 2);
    lemma_signed_bytes(c.hour, 2);
    lemma_signed_bytes(c.minute, 2);
    lemma_signed_bytes(c.second, 2);
    assert forall|i: int| 0 <= i < t0.len() implies t0[i] != 0 by {
        lemma_concat_has_no_nul(signed(c.second, 2), e);
        lemma_concat_has_no_nul(seq![':' as u8], t5);
        lemma_concat_has_no_nul(signed(c.minute, 2), u4);
        lemma_concat_has_no_nul(seq![':' as u8], t4);
        lemma_concat_has_no_nul(signed(c.hour, 2), u3);
        lemma_concat_has_no_nul(seq![' ' as u8], t3);
        lemma_concat_has_no_nul(signed(c.day, 2), u2);
        lemma_concat_has_no_nul(seq!['-' as u8], t2);
        lemma_concat_has_no_nul(signed(c.month, 2), u1);
        lemma_concat_has_no_nul(seq!['-' as u8], t1);
        lemma_concat_has_no_nul(signed(c.year, 4), u0);
    }
}

/// Two texts without a NUL byte make one without.
pub proof fn lemma_concat_has_no_nul(a: Seq<u8>, b: Seq<u8>)
    requires
        forall|i: int| 0 <= i < a.len() ==> #[trigger] a[i] != 0,
        forall|i: int| 0 <= i < b.len() ==> #[trigger] b[i] != 0,
    ensures
        forall|i: int| 0 <= i < (a + b).len() ==> #[trigger] (a + b)[i] != 0,
{
    assert forall|i: int| 0 <= i < (a + b).len() implies #[trigger] (a + b)[i] != 0 by {
        if i < a.len() {
            assert((a + b)[i] == a[i]);
        } else {
            assert((a + b)[i] == b[i - a.len()]);
        }
    }
}

/// Every timestamp that can be written, formatted as `%Y-%m-%d %H:%M:%S`
/// and parsed in the same format, comes back unchanged.
pub proof fn lemma_timestamp_round_trip(timestamp: i64)
    requires
        FIRST_TIMESTAMP <= timestamp <= LAST_TIMESTAMP,
    ensures
        format_outcome(timestamp as int, date_time_format()) == Ok::<Seq<u8>, Error>(
            formatted(timestamp as int, date_time_format()),
        ),
        parse_outcome(formatted(timestamp as int, date_time_format()), date_time_format())
            == Ok::<i64, Error>(timestamp),
{
    let c = civil_of(timestamp as int);
    lemma_civil_of(timestamp as int);
    lemma_fits_tm(timestamp as int);
    lemma_date_time_format();
    lemma_date_time_round_trip(c);
    assert(as_read(c).timestamp() == c.timestamp());
}

} // verus!
