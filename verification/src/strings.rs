//! The two conversions, on byte strings and on `str`.

use crate::calendar::{
    civil_of, is_leap_year, lemma_days_before_year_bounds, lemma_month_start_values, Civil,
    CivilTime,
};
use crate::error::Error;
use crate::parse::{clamp_year, in_read_ranges, parse, parse_civil};
use crate::render::{render, render_civil};
use crate::validity::lemma_render_is_valid;
use std::string::FromUtf8Error;
use vstd::prelude::*;
use vstd::string::StringSliceAdditionalSpecFns;
use vstd::utf8::{encode_utf8, encode_utf8_decode_utf8, encode_utf8_valid_utf8, valid_utf8};

verus! {

/// The error of `String::from_utf8`. Nothing is read from it.
#[verifier::external_type_specification]
#[verifier::external_body]
pub struct ExFromUtf8Error(FromUtf8Error);

/// `String::from_utf8` of the standard library: it succeeds exactly on
/// vectors that hold valid UTF-8, and the string it then returns is made
/// of the bytes that were handed in.
pub assume_specification[ String::from_utf8 ](vec: Vec<u8>) -> (r: Result<String, FromUtf8Error>)
    ensures
        r is Ok <==> valid_utf8(vec@),
        r matches Ok(s) ==> encode_utf8(s@) == vec@,
;

/// Whether a byte string holds a NUL byte.
pub open spec fn has_nul(bytes: Seq<u8>) -> bool {
    exists|i: int| 0 <= i < bytes.len() && bytes[i] == 0
}

/// The text that `format` yields for a timestamp.
pub open spec fn formatted(timestamp: int, format: Seq<u8>) -> Seq<u8> {
    render(civil_of(timestamp), format)
}

/// What formatting a timestamp comes to: `TimestampToTmError` if the
/// year of the timestamp, counted from 1900, does not fit in 32 bits;
/// `FormatError` if the format holds a NUL byte; else the text. The year
/// is looked at first.
pub open spec fn format_outcome(timestamp: int, format: Seq<u8>) -> Result<Seq<u8>, Error> {
    if !civil_of(timestamp).fits_tm() {
        Err(Error::TimestampToTmError)
    } else if has_nul(format) {
        Err(Error::FormatError)
    } else {
        Ok(formatted(timestamp, format))
    }
}

/// Whether `r` is what formatting comes to, as a string: the string whose
/// UTF-8 encoding is the text, or the error.
pub open spec fn is_format_result(
    timestamp: int,
    format: Seq<u8>,
    r: Result<String, Error>,
) -> bool {
    match format_outcome(timestamp, format) {
        Ok(text) => r matches Ok(s) && encode_utf8(s@) == text,
        Err(e) => r == Err::<String, Error>(e),
    }
}

/// What parsing a text comes to: `FormatError` if the format or the text
/// holds a NUL byte; `DateTimeParseError` if the text does not have the
/// shape that the format describes; `TimestampOverflowError` if the civil
/// time that was read has a timestamp outside 64 bits; else that timestamp.
pub open spec fn parse_outcome(text: Seq<u8>, format: Seq<u8>) -> Result<i64, Error> {
    if has_nul(format) || has_nul(text) {
        Err(Error::FormatError)
    } else {
        match parse(text, format) {
            None => Err(Error::DateTimeParseError),
            Some(c) => if i64::MIN <= c.timestamp() <= i64::MAX {
                Ok(c.timestamp() as i64)
            } else {
                Err(Error::TimestampOverflowError)
            },
        }
    }
}

/// A civil time read from a text whose year is at or beyond the largest
/// 64-bit number, on either side of zero, has no 64-bit timestamp.
pub proof fn lemma_far_year_overflows(c: Civil)
    requires
        in_read_ranges(c),
    ensures
        c.year >= i64::MAX ==> c.timestamp() > i64::MAX,
        c.year <= -i64::MAX ==> c.timestamp() < i64::MIN,
{
    assert(c.carried_year() == c.year);
    assert(c.carried_month() == c.month);
    lemma_days_before_year_bounds(c.year);
    lemma_month_start_values(is_leap_year(c.year));
}

/// Formatting has one outcome: two results for the same timestamp and
/// format are the same error or strings of the same characters.
pub proof fn lemma_formatting_is_a_function(
    timestamp: int,
    format: Seq<u8>,
    first: Result<String, Error>,
    second: Result<String, Error>,
)
    requires
        is_format_result(timestamp, format, first),
        is_format_result(timestamp, format, second),
    ensures
        first is Ok <==> second is Ok,
        first is Ok ==> first->Ok_0@ == second->Ok_0@,
        first is Err ==> first->Err_0 == second->Err_0,
{
    if first is Ok {
        encode_utf8_decode_utf8(first->Ok_0@);
        encode_utf8_decode_utf8(second->Ok_0@);
    }
}

/// Whether `bytes` holds a NUL byte.
pub fn contains_nul(bytes: &[u8]) -> (r: bool)
    ensures
        r == has_nul(bytes@),
{
    let mut i: usize = 0;
    while i < bytes.len()
        invariant
            i <= bytes.len(),
            forall|j: int| 0 <= j < i ==> bytes@[j] != 0,
        decreases bytes.len() - i,
    {
        if bytes[i] == 0 {
            return true;
        }
        i = i + 1;
    }
    false
}

/// Writes a timestamp as `format` directs, on bytes.
///
/// The errors are `TimestampToTmError`, for a timestamp outside
/// [`crate::calendar::FIRST_TIMESTAMP`] to
/// [`crate::calendar::LAST_TIMESTAMP`], and `FormatError`, for a
/// format that holds a NUL byte.
pub fn format_bytes(timestamp: i64, format: &[u8]) -> (r: Result<Vec<u8>, Error>)
    ensures
        match format_outcome(timestamp as int, format@) {
            Ok(text) => r matches Ok(written) && written@ == text,
            Err(e) => r == Err::<Vec<u8>, Error>(e),
        },
{
    let c = CivilTime::from_timestamp(timestamp);
    if !c.fits_tm() {
        return Err(Error::TimestampToTmError);
    }
    if contains_nul(format) {
        return Err(Error::FormatError);
    }
    Ok(render_civil(&c, format))
}

/// Reads a timestamp out of `text` as `format` directs, on bytes.
pub fn parse_bytes(text: &[u8], format: &[u8]) -> (r: Result<i64, Error>)
    ensures
        r == parse_outcome(text@, format@),
{
    if contains_nul(format) || contains_nul(text) {
        return Err(Error::FormatError);
    }
    match parse_civil(text, format) {
        Ok(c) => {
            proof {
                let read = parse(text@, format@).unwrap();
                lemma_far_year_overflows(read);
                lemma_far_year_overflows(clamp_year(read));
            }
            c.to_timestamp()
        },
        Err(e) => Err(e),
    }
}

/// Formats a timestamp in seconds to date time in the specified format.
///
/// The timestamp is decomposed in UTC and written as the module
/// [`crate::render`] lays down. A timestamp whose year, counted from 1900,
/// does not fit in 32 bits gives `TimestampToTmError`: by
/// [`crate::calendar::lemma_fits_tm`] that is one outside
/// [`crate::calendar::FIRST_TIMESTAMP`] to
/// [`crate::calendar::LAST_TIMESTAMP`]. After that a format that holds a
/// NUL byte gives `FormatError`. There is no other error: what is written
/// for a `str` is valid UTF-8.
pub fn strftime_format(timestamp: i64, format: &str) -> (r: Result<String, Error>)
    ensures
        is_format_result(timestamp as int, format.spec_bytes(), r),
{
    proof {
        encode_utf8_valid_utf8(format@);
        lemma_render_is_valid(civil_of(timestamp as int), format.spec_bytes());
    }
    match format_bytes(timestamp, format.as_bytes()) {
        Ok(text) => {
            match String::from_utf8(text) {
                Ok(s) => Ok(s),
                Err(_) => Err(Error::FormatError),
            }
        },
        Err(e) => Err(e),
    }
}

/// Parses a string date time into timestamp in seconds using the specified
/// format.
///
/// The text is read as the module [`crate::parse`] lays down and taken as
/// UTC. A date that does not exist is carried forward: the 29th of February
/// 1900 is read as the 1st of March 1900.
pub fn parse_strftime(date_time: &str, format: &str) -> (r: Result<i64, Error>)
    ensures
        r == parse_outcome(date_time.spec_bytes(), format.spec_bytes()),
{
    parse_bytes(date_time.as_bytes(), format.as_bytes())
}

} // verus!
