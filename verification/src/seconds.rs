//! Playing times: counted in whole nanoseconds, written in seconds.

use vstd::prelude::*;
use crate::text::{all_digits, decimal_digits, digit_char, is_digit, pow10, push_decimal};
use crate::text::{lemma_decimal_digits_shape, lemma_decimal_round_trip, lemma_pow10_step};

verus! {

/// How many nanoseconds make a second.
pub const NANOS_PER_SECOND: u128 = 1_000_000_000;

/// How many digits the nanoseconds of a second take.
pub const NANO_DIGITS: usize = 9;

/// The whole seconds of a time of `nanos` nanoseconds.
pub open spec fn whole_seconds(nanos: u128) -> nat {
    (nanos / NANOS_PER_SECOND) as nat
}

/// The nanoseconds of a time of `nanos` nanoseconds beyond its whole seconds.
pub open spec fn odd_nanos(nanos: u128) -> nat {
    (nanos % NANOS_PER_SECOND) as nat
}

/// The digits that `part` units of ten to the minus `width` write after a
/// decimal point: `width` digits of which the zeros at the end are left out.
pub open spec fn fraction_digits(part: nat, width: nat) -> Seq<char>
    decreases width,
{
    if part == 0 || width == 0 {
        Seq::empty()
    } else {
        seq![digit_char(part / pow10((width - 1) as nat))] + fraction_digits(
            part % pow10((width - 1) as nat),
            (width - 1) as nat,
        )
    }
}

/// A time of `nanos` nanoseconds written in seconds: the whole seconds as a
/// decimal numeral, and, unless nothing is left, a point and what is left to
/// its last digit that is not zero. So 244000000 is written `0.244` and
/// 3000000000 is written `3`.
pub open spec fn seconds_text(nanos: u128) -> Seq<char> {
    if odd_nanos(nanos) == 0 {
        decimal_digits(whole_seconds(nanos))
    } else {
        decimal_digits(whole_seconds(nanos)) + seq!['.'] + fraction_digits(
            odd_nanos(nanos),
            NANO_DIGITS as nat,
        )
    }
}

/// Splitting a number below ten to the `width` at its first digit.
pub proof fn lemma_leading_digit(part: nat, width: nat)
    requires
        width >= 1,
        part < pow10(width),
    ensures
        part / pow10((width - 1) as nat) < 10,
        part % pow10((width - 1) as nat) < pow10((width - 1) as nat),
        part == (part / pow10((width - 1) as nat)) * pow10((width - 1) as nat) + part % pow10(
            (width - 1) as nat,
        ),
{
    let unit = pow10((width - 1) as nat);
    lemma_pow10_step((width - 1) as nat);
    assert(part / unit < 10 && part % unit < unit && part == (part / unit) * unit + part % unit)
        by (nonlinear_arith)
        requires
            unit >= 1,
            part < 10 * unit,
    ;
}

/// The digits after the point are digits, at most `width` of them, and none
/// exactly when there is nothing to write.
pub proof fn lemma_fraction_digits_shape(part: nat, width: nat)
    requires
        part < pow10(width),
    ensures
        all_digits(fraction_digits(part, width)),
        fraction_digits(part, width).len() <= width,
        fraction_digits(part, width).len() == 0 <==> part == 0,
    decreases width,
{
    if part != 0 && width != 0 {
        lemma_leading_digit(part, width);
        lemma_fraction_digits_shape(part % pow10((width - 1) as nat), (width - 1) as nat);
    }
}

/// Two different parts never write the same digits after the point.
pub proof fn lemma_fraction_digits_injective(a: nat, b: nat, width: nat)
    requires
        a < pow10(width),
        b < pow10(width),
        fraction_digits(a, width) == fraction_digits(b, width),
    ensures
        a == b,
    decreases width,
{
    lemma_fraction_digits_shape(a, width);
    lemma_fraction_digits_shape(b, width);
    if a != 0 && b != 0 {
        let unit = pow10((width - 1) as nat);
        lemma_leading_digit(a, width);
        lemma_leading_digit(b, width);
        let text_a = fraction_digits(a, width);
        let text_b = fraction_digits(b, width);
        assert(text_a[0] == digit_char(a / unit));
        assert(text_b[0] == digit_char(b / unit));
        assert(text_a.drop_first() =~= fraction_digits(a % unit, (width - 1) as nat));
        assert(text_b.drop_first() =~= fraction_digits(b % unit, (width - 1) as nat));
        lemma_fraction_digits_injective(a % unit, b % unit, (width - 1) as nat);
    }
}

/// Two different times are never written alike.
pub proof fn lemma_seconds_text_injective(a: u128, b: u128)
    requires
        seconds_text(a) == seconds_text(b),
    ensures
        a == b,
{
    let whole_a = decimal_digits(whole_seconds(a));
    let whole_b = decimal_digits(whole_seconds(b));
    let text_a = seconds_text(a);
    let text_b = seconds_text(b);
    lemma_decimal_digits_shape(whole_seconds(a));
    lemma_decimal_digits_shape(whole_seconds(b));
    assert(pow10(9) == NANOS_PER_SECOND) by {
        reveal_with_fuel(pow10, 10);
    }
    lemma_fraction_digits_shape(odd_nanos(a), 9);
    lemma_fraction_digits_shape(odd_nanos(b), 9);
    if whole_a.len() < whole_b.len() {
        // where the shorter numeral ends, one text goes on with a digit and the other does not
        assert(is_digit(whole_b[whole_a.len() as int]));
        assert(text_b[whole_a.len() as int] == whole_b[whole_a.len() as int]);
        assert(text_a.len() > whole_a.len());
        assert(text_a[whole_a.len() as int] == '.');
    } else if whole_b.len() < whole_a.len() {
        assert(is_digit(whole_a[whole_b.len() as int]));
        assert(text_a[whole_b.len() as int] == whole_a[whole_b.len() as int]);
        assert(text_b.len() > whole_b.len());
        assert(text_b[whole_b.len() as int] == '.');
    } else {
        let split = whole_a.len() as int;
        assert(whole_a =~= text_a.subrange(0, split));
        assert(whole_b =~= text_b.subrange(0, split));
        lemma_decimal_round_trip(whole_seconds(a));
        lemma_decimal_round_trip(whole_seconds(b));
        assert(whole_seconds(a) == whole_seconds(b));
        if odd_nanos(a) != 0 && odd_nanos(b) != 0 {
            assert(fraction_digits(odd_nanos(a), 9) =~= text_a.subrange(split + 1, text_a.len() as int));
            assert(fraction_digits(odd_nanos(b), 9) =~= text_b.subrange(split + 1, text_a.len() as int));
            lemma_fraction_digits_injective(odd_nanos(a), odd_nanos(b), 9);
        } else {
            assert(text_a.len() == split);
        }
    }
}

/// Appends to `out` the time of `nanos` nanoseconds, written in seconds.
pub fn push_seconds(out: &mut Vec<char>, nanos: u128)
    ensures
        final(out)@ == old(out)@ + seconds_text(nanos),
{
    push_decimal(out, nanos / NANOS_PER_SECOND);
    let mut part: u128 = nanos % NANOS_PER_SECOND;
    if part != 0 {
        out.push('.');
        let mut unit: u128 = NANOS_PER_SECOND / 10;
        let ghost mut width: nat = NANO_DIGITS as nat;
        proof {
            reveal_with_fuel(pow10, 10);
        }
        while part != 0
            invariant
                part < pow10(width),
                width >= 1 ==> unit == pow10((width - 1) as nat),
                out@ + fraction_digits(part as nat, width) == old(out)@ + seconds_text(nanos),
            decreases width,
        {
            proof {
                lemma_leading_digit(part as nat, width);
                if width >= 2 {
                    lemma_pow10_step((width - 2) as nat);
                }
            }
            let d: u8 = (part / unit) as u8;
            let c: char = (48u8 + d) as char;
            assert(c == digit_char((part / unit) as nat));
            let ghost before = out@;
            out.push(c);
            part = part % unit;
            unit = unit / 10;
            proof {
                width = (width - 1) as nat;
                assert(before + (seq![c] + fraction_digits(part as nat, width)) =~= out@ + fraction_digits(
                    part as nat,
                    width,
                ));
            }
        }
        assert(out@ + fraction_digits(0, width) =~= out@);
    }
}

} // verus!
