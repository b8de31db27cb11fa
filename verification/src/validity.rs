//! What is written is valid UTF-8 whenever the format is.
//!
//! A directive is two ASCII bytes and writes ASCII bytes, and every other
//! byte of the format is copied, so the multi-byte characters of a format
//! arrive in the text whole.

use crate::calendar::Civil;
use crate::decimal::{lemma_signed_bytes, signed};
use crate::names::{month_abbreviation, month_name, weekday_abbreviation, weekday_name};
use crate::render::{begins_with_directive, field_text, render};
use vstd::prelude::*;
use vstd::string::StringSliceAdditionalSpecFns;
use vstd::utf8::{
    encode_utf8_valid_utf8, length_of_first_scalar, pop_first_scalar, take_first_scalar,
    valid_first_scalar, valid_utf8, valid_utf8_concat,
};

verus! {

/// Whether every byte is an ASCII character.
pub open spec fn is_ascii_text(bytes: Seq<u8>) -> bool {
    forall|i: int| 0 <= i < bytes.len() ==> #[trigger] bytes[i] <= 0x7f
}

/// ASCII text is valid UTF-8.
pub proof fn lemma_ascii_is_valid(bytes: Seq<u8>)
    requires
        is_ascii_text(bytes),
    ensures
        valid_utf8(bytes),
    decreases bytes.len(),
{
    if bytes.len() > 0 {
        let b = bytes[0];
        assert(b & 0x7f <= 0x7f) by (bit_vector);
        assert(valid_first_scalar(bytes));
        let rest = pop_first_scalar(bytes);
        assert forall|i: int| 0 <= i < rest.len() implies #[trigger] rest[i] <= 0x7f by {
            assert(rest[i] == bytes[i + 1]);
        }
        lemma_ascii_is_valid(rest);
    }
}

/// What a directive writes is valid UTF-8.
pub proof fn lemma_field_text_is_valid(c: Civil, directive: u8)
    ensures
        valid_utf8(field_text(c, directive)),
{
    broadcast use encode_utf8_valid_utf8;

    lemma_signed_bytes(c.year, 4);
    lemma_signed_bytes(c.month, 2);
    lemma_signed_bytes(c.day, 2);
    lemma_signed_bytes(c.hour, 2);
    lemma_signed_bytes(c.minute, 2);
    lemma_signed_bytes(c.second, 2);
    lemma_signed_bytes(c.day_of_year + 1, 3);
    if directive == 'Y' as u8 {
        lemma_ascii_is_valid(signed(c.year, 4));
    } else if directive == 'm' as u8 {
        lemma_ascii_is_valid(signed(c.month, 2));
    } else if directive == 'd' as u8 {
        lemma_ascii_is_valid(signed(c.day, 2));
    } else if directive == 'H' as u8 {
        lemma_ascii_is_valid(signed(c.hour, 2));
    } else if directive == 'M' as u8 {
        lemma_ascii_is_valid(signed(c.minute, 2));
    } else if directive == 'S' as u8 {
        lemma_ascii_is_valid(signed(c.second, 2));
    } else if directive == 'j' as u8 {
        lemma_ascii_is_valid(signed(c.day_of_year + 1, 3));
    } else if directive == 'a' as u8 {
        assert(valid_utf8(weekday_abbreviation(c.weekday)));
    } else if directive == 'A' as u8 {
        assert(valid_utf8(weekday_name(c.weekday)));
    } else if directive == 'b' as u8 {
        assert(valid_utf8(month_abbreviation(c.month)));
    } else if directive == 'B' as u8 {
        assert(valid_utf8(month_name(c.month)));
    } else if directive == 'z' as u8 {
        assert(valid_utf8("+0000".spec_bytes()));
    } else {
        lemma_ascii_is_valid(seq!['%' as u8]);
    }
}

/// Bytes before which no `%` stands are copied as they are.
pub proof fn lemma_render_copies(c: Civil, format: Seq<u8>, count: int)
    requires
        0 <= count <= format.len(),
        forall|i: int| 0 <= i < count ==> #[trigger] format[i] != '%' as u8,
    ensures
        render(c, format) == format.take(count) + render(c, format.skip(count)),
    decreases count,
{
    if count == 0 {
        assert(format.skip(0) =~= format);
        assert(format.take(0) + render(c, format) =~= render(c, format));
    } else {
        let rest = format.skip(1);
        assert(format[0] != '%' as u8);
        assert forall|i: int| 0 <= i < count - 1 implies #[trigger] rest[i] != '%' as u8 by {
            assert(rest[i] == format[i + 1]);
        }
        lemma_render_copies(c, rest, count - 1);
        assert(rest.skip(count - 1) =~= format.skip(count));
        assert(seq![format[0]] + rest.take(count - 1) =~= format.take(count));
        assert(render(c, format) =~= format.take(count) + render(c, format.skip(count)));
    }
}

/// The text written for a format that is valid UTF-8 is valid UTF-8.
pub proof fn lemma_render_is_valid(c: Civil, format: Seq<u8>)
    requires
        valid_utf8(format),
    ensures
        valid_utf8(render(c, format)),
    decreases format.len(),
{
    if format.len() == 0 {
    } else if begins_with_directive(format) {
        let after_percent = pop_first_scalar(format);
        assert(valid_utf8(after_percent));
        assert(after_percent =~= format.skip(1));
        assert(after_percent[0] == format[1]);
        assert(valid_utf8(pop_first_scalar(after_percent)));
        assert(pop_first_scalar(after_percent) =~= format.skip(2));
        lemma_render_is_valid(c, format.skip(2));
        lemma_field_text_is_valid(c, format[1]);
        valid_utf8_concat(field_text(c, format[1]), render(c, format.skip(2)));
    } else {
        let len = length_of_first_scalar(format);
        let first = take_first_scalar(format);
        let rest = pop_first_scalar(format);
        assert(1 <= len <= 4 && len <= format.len());
        assert(rest =~= format.skip(len));
        assert(first =~= format.take(len));
        if format[0] <= 0x7f {
            assert(len == 1);
            assert(render(c, format) =~= first + render(c, rest));
        } else {
            lemma_render_copies(c, format, len);
        }
        assert(valid_utf8(first)) by {
            reveal_with_fuel(valid_utf8, 2);
            assert(valid_first_scalar(first));
            assert(pop_first_scalar(first).len() == 0);
        }
        lemma_render_is_valid(c, rest);
        valid_utf8_concat(first, render(c, rest));
    }
}

} // verus!
