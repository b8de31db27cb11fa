//! Numbers as decimal digits: how a field is written, and how a run of
//! digits is read back.

use vstd::prelude::*;

verus! {

/// Whether a byte is one of the digits `0` to `9`.
pub open spec fn is_digit(b: u8) -> bool {
    '0' as u8 <= b <= '9' as u8
}

/// The digit that stands for `d`, for `d` from 0 to 9.
pub open spec fn digit_byte(d: int) -> u8 {
    ('0' as u8 + d) as u8
}

/// The decimal digits of `n`, most significant first, with no leading zero
/// (and the single digit `0` for zero).
pub open spec fn decimal(n: nat) -> Seq<u8>
    decreases n,
{
    if n < 10 {
        seq![digit_byte(n as int)]
    } else {
        decimal(n / 10).push(digit_byte((n % 10) as int))
    }
}

/// `count` zeros.
pub open spec fn zeros(count: nat) -> Seq<u8> {
    Seq::new(count, |i: int| '0' as u8)
}

/// The digits of `n` with zeros in front until there are at least `width`.
pub open spec fn padded(n: nat, width: nat) -> Seq<u8> {
    if decimal(n).len() < width {
        zeros((width - decimal(n).len()) as nat) + decimal(n)
    } else {
        decimal(n)
    }
}

/// How a field is written: a minus sign if `v` is negative, then the
/// magnitude in at least `width` digits.
pub open spec fn signed(v: int, width: nat) -> Seq<u8> {
    if v < 0 {
        seq!['-' as u8] + padded((-v) as nat, width)
    } else {
        padded(v as nat, width)
    }
}

/// The number of digits at the start of `s`, counted up to `limit`.
pub open spec fn digit_run(s: Seq<u8>, limit: nat) -> nat
    decreases limit,
{
    if limit == 0 || s.len() == 0 || !is_digit(s[0]) {
        0
    } else {
        1 + digit_run(s.skip(1), (limit - 1) as nat)
    }
}

/// The number that a string of digits stands for; 0 for the empty string.
pub open spec fn decimal_value(s: Seq<u8>) -> nat
    decreases s.len(),
{
    if s.len() == 0 {
        0
    } else {
        decimal_value(s.drop_last()) * 10 + (s.last() - '0' as u8) as nat
    }
}

/// A number is written in at least one digit, and every byte is a digit.
pub proof fn lemma_decimal_digits(n: nat)
    ensures
        decimal(n).len() >= 1,
        forall|i: int| 0 <= i < decimal(n).len() ==> is_digit(#[trigger] decimal(n)[i]),
    decreases n,
{
    if n >= 10 {
        lemma_decimal_digits(n / 10);
    }
}

/// Reading the digits of a number gives the number back.
pub proof fn lemma_decimal_value_of_decimal(n: nat)
    ensures
        decimal_value(decimal(n)) == n,
    decreases n,
{
    if n < 10 {
        assert(decimal(n).drop_last() =~= Seq::<u8>::empty());
        assert(decimal_value(decimal(n).drop_last()) == 0);
    } else {
        lemma_decimal_value_of_decimal(n / 10);
        assert(decimal(n).drop_last() =~= decimal(n / 10));
    }
}

/// Zeros in front do not change the value.
pub proof fn lemma_decimal_value_leading_zeros(count: nat, s: Seq<u8>)
    ensures
        decimal_value(zeros(count) + s) == decimal_value(s),
    decreases s.len(),
{
    if s.len() == 0 {
        assert(zeros(count) + s =~= zeros(count));
        lemma_decimal_value_zeros(count);
    } else {
        assert((zeros(count) + s).drop_last() =~= zeros(count) + s.drop_last());
        lemma_decimal_value_leading_zeros(count, s.drop_last());
    }
}

/// A string of zeros stands for zero.
pub proof fn lemma_decimal_value_zeros(count: nat)
    ensures
        decimal_value(zeros(count)) == 0,
    decreases count,
{
    if count > 0 {
        assert(zeros(count).drop_last() =~= zeros((count - 1) as nat));
        lemma_decimal_value_zeros((count - 1) as nat);
    }
}

/// A padded number is all digits, at least `width` of them and at least
/// one, and reads back as the number.
pub proof fn lemma_padded(n: nat, width: nat)
    ensures
        padded(n, width).len() >= width,
        padded(n, width).len() >= 1,
        padded(n, width).len() == if decimal(n).len() < width {
            width
        } else {
            decimal(n).len()
        },
        forall|i: int| 0 <= i < padded(n, width).len() ==> is_digit(#[trigger] padded(n, width)[i]),
        decimal_value(padded(n, width)) == n,
{
    lemma_decimal_digits(n);
    lemma_decimal_value_of_decimal(n);
    if decimal(n).len() < width {
        lemma_decimal_value_leading_zeros((width - decimal(n).len()) as nat, decimal(n));
    }
}

/// Every byte of a written field is a digit or the minus sign.
pub proof fn lemma_signed_bytes(v: int, width: nat)
    ensures
        forall|i: int|
            0 <= i < signed(v, width).len() ==> is_digit(#[trigger] signed(v, width)[i])
                || signed(v, width)[i] == '-' as u8,
{
    if v < 0 {
        lemma_padded((-v) as nat, width);
        let digits = padded((-v) as nat, width);
        assert forall|i: int| 0 <= i < signed(v, width).len() implies is_digit(
            #[trigger] signed(v, width)[i],
        ) || signed(v, width)[i] == '-' as u8 by {
            if i > 0 {
                assert(signed(v, width)[i] == digits[i - 1]);
            }
        }
    } else {
        lemma_padded(v as nat, width);
    }
}

/// A number below 100 has at most two digits, one below 1000 at most three.
pub proof fn lemma_decimal_short(n: nat)
    ensures
        n < 10 ==> decimal(n).len() == 1,
        10 <= n < 100 ==> decimal(n).len() == 2,
        100 <= n < 1000 ==> decimal(n).len() == 3,
{
    reveal_with_fuel(decimal, 4);
}

/// A string whose first `count` bytes are digits, and which then ends or
/// goes on with something else, has a digit run of `count` under any limit
/// that allows as many; under a smaller limit the run is the limit.
pub proof fn lemma_digit_run(s: Seq<u8>, count: nat, limit: nat)
    requires
        count <= s.len(),
        forall|i: int| 0 <= i < count ==> is_digit(#[trigger] s[i]),
        count == s.len() || !is_digit(s[count as int]),
    ensures
        digit_run(s, limit) == if limit <= count {
            limit
        } else {
            count
        },
    decreases limit,
{
    if limit > 0 && count > 0 {
        let t = s.skip(1);
        assert forall|i: int| 0 <= i < count - 1 implies is_digit(#[trigger] t[i]) by {
            assert(t[i] == s[i + 1]);
        }
        lemma_digit_run(t, (count - 1) as nat, (limit - 1) as nat);
    }
}

/// Whether `b` is a digit.
pub fn is_digit_byte(b: u8) -> (r: bool)
    ensures
        r == is_digit(b),
{
    '0' as u8 <= b && b <= '9' as u8
}

/// The number of digits in which `n` is written.
pub fn decimal_len(n: u128) -> (len: usize)
    ensures
        len == decimal(n as nat).len(),
        1 <= len <= 39,
    decreases n,
{
    if n < 10 {
        1
    } else {
        let rest: usize = decimal_len(n / 10);
        proof {
            lemma_decimal_len_bound(n as nat);
        }
        rest + 1
    }
}

/// Ten to the power of `k`.
pub open spec fn power_of_ten(k: nat) -> nat
    decreases k,
{
    if k == 0 {
        1
    } else {
        10 * power_of_ten((k - 1) as nat)
    }
}

/// A number below ten to the power of `k` is written in at most `k`
/// digits.
pub proof fn lemma_decimal_len(n: nat, k: nat)
    requires
        k >= 1,
        n < power_of_ten(k),
    ensures
        decimal(n).len() <= k,
    decreases k,
{
    if n >= 10 {
        assert(power_of_ten(1) == 10) by {
            reveal_with_fuel(power_of_ten, 2);
        }
        lemma_decimal_len(n / 10, (k - 1) as nat);
    }
}

/// A number below 2^128 has at most 39 digits.
proof fn lemma_decimal_len_bound(n: nat)
    requires
        n <= u128::MAX,
    ensures
        decimal(n).len() <= 39,
{
    assert(power_of_ten(39) == 1000000000000000000000000000000000000000) by {
        reveal_with_fuel(power_of_ten, 40);
    }
    lemma_decimal_len(n, 39);
}

/// Appends the digits of `n` to `out`.
pub fn push_decimal(out: &mut Vec<u8>, n: u128)
    ensures
        final(out)@ == old(out)@ + decimal(n as nat),
    decreases n,
{
    if n < 10 {
        out.push('0' as u8 + n as u8);
        assert(final(out)@ =~= old(out)@ + decimal(n as nat));
    } else {
        push_decimal(out, n / 10);
        out.push('0' as u8 + (n % 10) as u8);
        assert(final(out)@ =~= old(out)@ + decimal(n as nat));
    }
}

/// Appends `n` to `out` in at least `width` digits.
pub fn push_padded(out: &mut Vec<u8>, n: u128, width: usize)
    ensures
        final(out)@ == old(out)@ + padded(n as nat, width as nat),
{
    let len: usize = decimal_len(n);
    let mut written: usize = len;
    while written < width
        invariant
            len == decimal(n as nat).len(),
            len <= written,
            written <= width || written == len,
            out@ == old(out)@ + zeros((written - len) as nat),
        decreases width - written,
    {
        out.push('0' as u8);
        written = written + 1;
        assert(out@ =~= old(out)@ + zeros((written - len) as nat));
    }
    push_decimal(out, n);
    assert(final(out)@ =~= old(out)@ + padded(n as nat, width as nat));
}

/// Appends `v` to `out` as a field is written: a minus sign if it is
/// negative, then its magnitude in at least `width` digits.
pub fn push_signed(out: &mut Vec<u8>, v: i128, width: usize)
    ensures
        final(out)@ == old(out)@ + signed(v as int, width as nat),
{
    if v < 0 {
        out.push('-' as u8);
        let magnitude: u128 = (-(v + 1)) as u128 + 1;
        push_padded(out, magnitude, width);
        assert(final(out)@ =~= old(out)@ + signed(v as int, width as nat));
    } else {
        push_padded(out, v as u128, width);
    }
}

/// What [`scan_digits`] found at a place in a text.
pub struct DigitRun {
    /// How many digits stand there, counted up to the limit.
    pub len: usize,
    /// Their value, if it fits; otherwise zero.
    pub value: u64,
    /// Whether the value of the digits fits in `value`.
    pub fits: bool,
}

/// Reads the digits that stand in `text` from `start` on, at most `limit`
/// of them.
pub fn scan_digits(text: &[u8], start: usize, limit: usize) -> (run: DigitRun)
    requires
        start <= text.len(),
    ensures
        run.len == digit_run(text@.skip(start as int), limit as nat),
        start + run.len <= text.len(),
        run.fits ==> run.value == decimal_value(
            text@.subrange(start as int, start + run.len),
        ),
        !run.fits ==> decimal_value(text@.subrange(start as int, start + run.len)) > u64::MAX,
        !run.fits ==> run.value == 0,
{
    let mut at: usize = start;
    let mut value: u64 = 0;
    let mut fits: bool = true;
    proof {
        assert(text@.subrange(start as int, start as int) =~= Seq::<u8>::empty());
    }
    while at < text.len() && at - start < limit && is_digit_byte(text[at])
        invariant
            start <= at <= text.len(),
            at - start <= limit,
            digit_run(text@.skip(start as int), limit as nat) == (at - start) + digit_run(
                text@.skip(at as int),
                (limit - (at - start)) as nat,
            ),
            fits ==> value == decimal_value(text@.subrange(start as int, at as int)),
            !fits ==> decimal_value(text@.subrange(start as int, at as int)) > u64::MAX,
            !fits ==> value == 0,
        decreases text.len() - at,
    {
        let d: u64 = (text[at] - '0' as u8) as u64;
        proof {
            let before = text@.subrange(start as int, at as int);
            let after = text@.subrange(start as int, at + 1);
            assert(after.drop_last() =~= before);
            assert(after.last() == text@[at as int]);
            assert(decimal_value(after) == decimal_value(before) * 10 + d);
            assert(text@.skip(at as int).skip(1) =~= text@.skip(at + 1));
            assert(text@.skip(at as int)[0] == text@[at as int]);
        }
        if fits {
            match value.checked_mul(10) {
                Some(tens) => {
                    match tens.checked_add(d) {
                        Some(sum) => {
                            value = sum;
                        },
                        None => {
                            fits = false;
                            value = 0;
                        },
                    }
                },
                None => {
                    fits = false;
                    value = 0;
                },
            }
        }
        at = at + 1;
    }
    proof {
        let rest = text@.skip(at as int);
        if at < text.len() {
            assert(rest[0] == text@[at as int]);
        }
    }
    DigitRun { len: at - start, value, fits }
}

} // verus!
