//! Conversion between Unix timestamps and calendar text in UTC.
//!
//! A timestamp counts seconds from 1970-01-01T00:00:00Z. A format string is
//! made of literal bytes and of directives, a `%` followed by one letter, and
//! serves both directions: [`strftime_format`] writes the fields of a
//! timestamp where the directives stand, [`parse_strftime`] reads them back.
//! The calendar is the proleptic Gregorian one; no time zone other than UTC
//! and no locale other than the English names is known. A timestamp can be
//! written if its year, counted from 1900, fits in 32 bits.

pub mod arith;
pub mod calendar;
pub mod decimal;
pub mod error;
pub mod names;
pub mod parse;
pub mod render;
pub mod round_trip;
pub mod strings;
pub mod validity;

pub use calendar::CivilTime;
pub use error::Error;
pub use strings::{parse_strftime, strftime_format};
