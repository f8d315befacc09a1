//! Numbers written out in digits.

use vstd::prelude::*;

verus! {

/// The digit for `d`, in lower case.
pub open spec fn digit(d: nat) -> u8 {
    if d < 10 {
        (48 + d) as u8
    } else {
        (87 + d) as u8
    }
}

/// The last `width` hexadecimal digits of `value`, with leading zeros.
pub open spec fn hex_digits(value: nat, width: nat) -> Seq<u8>
    decreases width,
{
    if width == 0 {
        Seq::empty()
    } else {
        hex_digits(value / 16, (width - 1) as nat).push(digit(value % 16))
    }
}

/// The decimal digits of `value`, without leading zeros.
pub open spec fn decimal_digits(value: nat) -> Seq<u8>
    decreases value,
{
    if value < 10 {
        seq![digit(value)]
    } else {
        decimal_digits(value / 10).push(digit(value % 10))
    }
}

/// What the digit `byte` counts: decimal digits, and letters of either case.
pub open spec fn digit_value(byte: u8) -> Option<nat> {
    if 48 <= byte <= 57 {
        Some((byte - 48) as nat)
    } else if 97 <= byte <= 122 {
        Some((byte - 87) as nat)
    } else if 65 <= byte <= 90 {
        Some((byte - 55) as nat)
    } else {
        None
    }
}

/// The number that `digits` write in base `radix`; `None` if one of them is
/// no digit of that base.
pub open spec fn digits_value(digits: Seq<u8>, radix: nat) -> Option<nat>
    decreases digits.len(),
{
    if digits.len() == 0 {
        Some(0)
    } else {
        match (digits_value(digits.drop_last(), radix), digit_value(digits.last())) {
            (Some(value), Some(d)) if d < radix => Some(value * radix + d),
            _ => None,
        }
    }
}

/// `field` without the plus sign that a number may start with.
pub open spec fn unsigned(field: Seq<u8>) -> Seq<u8> {
    if field.len() > 1 && field[0] == 43 {
        field.skip(1)
    } else {
        field
    }
}

/// The number up to `max` that `field` writes in base `radix`: at least one
/// digit, after an optional plus sign.
pub open spec fn number_in(field: Seq<u8>, radix: nat, max: nat) -> Option<nat> {
    if field.len() == 0 {
        None
    } else {
        match digits_value(unsigned(field), radix) {
            Some(value) if value <= max => Some(value),
            _ => None,
        }
    }
}

/// More digits do not make a number smaller.
proof fn lemma_digits_value_grows(digits: Seq<u8>, n: int, radix: nat)
    requires
        0 <= n <= digits.len(),
        radix >= 1,
        digits_value(digits, radix) is Some,
    ensures
        digits_value(digits.take(n), radix) is Some,
        digits_value(digits.take(n), radix)->0 <= digits_value(digits, radix)->0,
    decreases digits.len() - n,
{
    if n == digits.len() {
        assert(digits.take(n) =~= digits);
    } else {
        lemma_digits_value_grows(digits, n + 1, radix);
        let longer = digits.take(n + 1);
        assert(longer.drop_last() =~= digits.take(n));
        let value = digits_value(digits.take(n), radix)->0;
        assert(value <= value * radix) by (nonlinear_arith)
            requires
                radix >= 1,
        ;
    }
}

/// Reads the number up to `max` that `field` writes in base `radix`.
pub fn parse_number(field: &[u8], radix: u8, max: u64) -> (r: Option<u64>)
    requires
        1 <= radix,
    ensures
        match number_in(field@, radix as nat, max as nat) {
            Some(value) => r == Some(value as u64) && value <= max,
            None => r is None,
        },
{
    if field.len() == 0 {
        return None;
    }
    let first: usize = if field.len() > 1 && field[0] == 43 {
        1
    } else {
        0
    };
    let ghost digits = unsigned(field@);
    assert(digits =~= field@.skip(first as int));
    let mut value: u128 = 0;
    let mut i: usize = first;
    assert(digits.take(0) =~= Seq::<u8>::empty());
    while i < field.len()
        invariant
            first <= i <= field@.len(),
            digits == field@.skip(first as int),
            digits_value(digits.take(i - first), radix as nat) == Some(value as nat),
            value <= max,
            1 <= radix,
            field@.len() > 0,
            digits == unsigned(field@),
        decreases field@.len() - i,
    {
        let byte: u8 = field[i];
        let ghost seen = digits.take(i + 1 - first);
        assert(seen.drop_last() =~= digits.take(i - first));
        assert(seen.last() == byte);
        let d: u8 = if 48 <= byte && byte <= 57 {
            byte - 48
        } else if 97 <= byte && byte <= 122 {
            byte - 87
        } else if 65 <= byte && byte <= 90 {
            byte - 55
        } else {
            255
        };
        if d == 255 || d >= radix {
            proof {
                if digits_value(digits, radix as nat) is Some {
                    lemma_digits_value_grows(digits, i + 1 - first, radix as nat);
                }
            }
            return None;
        }
        assert(value * radix <= 0xFFFF_FFFF_FFFF_FFFF * 255) by (nonlinear_arith)
            requires
                value <= 0xFFFF_FFFF_FFFF_FFFF,
                radix <= 255,
        ;
        value = value * (radix as u128) + (d as u128);
        if value > max as u128 {
            proof {
                if digits_value(digits, radix as nat) is Some {
                    lemma_digits_value_grows(digits, i + 1 - first, radix as nat);
                }
            }
            return None;
        }
        i = i + 1;
    }
    assert(digits.take(i - first) =~= digits);
    Some(value as u64)
}

/// Appends the digit for `d`.
fn push_digit(out: &mut Vec<u8>, d: u8)
    requires
        d < 16,
    ensures
        final(out)@ == old(out)@.push(digit(d as nat)),
{
    if d < 10 {
        out.push(48 + d);
    } else {
        out.push(87 + d);
    }
}

/// Appends the eight hexadecimal digits of `value`.
pub fn push_hex(out: &mut Vec<u8>, value: u32)
    ensures
        final(out)@ == old(out)@ + hex_digits(value as nat, 8),
{
    let ghost start = out@;
    proof {
        reveal_with_fuel(hex_digits, 9);
    }
    push_digit(out, (value / 0x1000_0000) as u8);
    push_digit(out, (value / 0x100_0000 % 16) as u8);
    push_digit(out, (value / 0x10_0000 % 16) as u8);
    push_digit(out, (value / 0x1_0000 % 16) as u8);
    push_digit(out, (value / 0x1000 % 16) as u8);
    push_digit(out, (value / 0x100 % 16) as u8);
    push_digit(out, (value / 0x10 % 16) as u8);
    push_digit(out, (value % 16) as u8);
    assert(out@ =~= start + hex_digits(value as nat, 8));
}

/// Appends the decimal digits of `value`.
pub fn push_decimal(out: &mut Vec<u8>, value: usize)
    ensures
        final(out)@ == old(out)@ + decimal_digits(value as nat),
    decreases value,
{
    let ghost start = out@;
    if value < 10 {
        push_digit(out, value as u8);
    } else {
        push_decimal(out, value / 10);
        push_digit(out, (value % 10) as u8);
    }
    assert(out@ =~= start + decimal_digits(value as nat));
}

/// Every byte of `bytes` is a lower-case digit of base `radix`.
pub open spec fn all_digits(bytes: Seq<u8>, radix: nat) -> bool {
    forall|i: int|
        0 <= i < bytes.len() ==> (digit_value(#[trigger] bytes[i]) matches Some(d) && d < radix)
}

/// What `hex_digits` writes is read back.
pub proof fn lemma_hex_digits_read(value: nat, width: nat, limit: nat)
    requires
        value < limit,
        limit == pow16(width),
    ensures
        hex_digits(value, width).len() == width,
        all_digits(hex_digits(value, width), 16),
        digits_value(hex_digits(value, width), 16) == Some(value),
    decreases width,
{
    if width > 0 {
        lemma_hex_digits_read(value / 16, (width - 1) as nat, pow16((width - 1) as nat));
        let digits = hex_digits(value, width);
        assert(digits.drop_last() =~= hex_digits(value / 16, (width - 1) as nat));
        assert(digit_value(digit(value % 16)) == Some(value % 16));
    }
}

/// 16 to the power of `n`.
pub open spec fn pow16(n: nat) -> nat
    decreases n,
{
    if n == 0 {
        1
    } else {
        16 * pow16((n - 1) as nat)
    }
}

/// What `decimal_digits` writes is read back.
pub proof fn lemma_decimal_digits_read(value: nat)
    ensures
        decimal_digits(value).len() > 0,
        all_digits(decimal_digits(value), 10),
        digits_value(decimal_digits(value), 10) == Some(value),
    decreases value,
{
    let digits = decimal_digits(value);
    if value < 10 {
        assert(digits.drop_last() =~= Seq::<u8>::empty());
        assert(digit_value(digit(value)) == Some(value));
        reveal_with_fuel(digits_value, 2);
    } else {
        lemma_decimal_digits_read(value / 10);
        assert(digits.drop_last() =~= decimal_digits(value / 10));
        assert(digit_value(digit(value % 10)) == Some(value % 10));
    }
}

/// Hexadecimal digits are written in lower case.
pub proof fn lemma_hex_digits_lower(value: nat, width: nat)
    ensures
        hex_digits(value, width).len() == width,
        forall|i: int|
            0 <= i < width ==> (48 <= #[trigger] hex_digits(value, width)[i] <= 57 || 97
                <= hex_digits(value, width)[i] <= 102),
    decreases width,
{
    if width > 0 {
        let earlier = hex_digits(value / 16, (width - 1) as nat);
        lemma_hex_digits_lower(value / 16, (width - 1) as nat);
        assert forall|i: int| 0 <= i < width implies (48 <= #[trigger] hex_digits(value, width)[i]
            <= 57 || 97 <= hex_digits(value, width)[i] <= 102) by {
            if i < width - 1 {
                assert(hex_digits(value, width)[i] == earlier[i]);
            }
        }
    }
}

/// Decimal digits are written without a leading zero.
pub proof fn lemma_decimal_digits_plain(value: nat)
    ensures
        decimal_digits(value).len() > 0,
        forall|i: int|
            0 <= i < decimal_digits(value).len() ==> 48 <= #[trigger] decimal_digits(value)[i]
                <= 57,
        decimal_digits(value)[0] == 48 ==> value == 0 && decimal_digits(value).len() == 1,
    decreases value,
{
    if value >= 10 {
        let earlier = decimal_digits(value / 10);
        lemma_decimal_digits_plain(value / 10);
        assert(decimal_digits(value)[0] == earlier[0]);
        assert forall|i: int| 0 <= i < decimal_digits(value).len() implies 48
            <= #[trigger] decimal_digits(value)[i] <= 57 by {
            if i < earlier.len() {
                assert(decimal_digits(value)[i] == earlier[i]);
            }
        }
    }
}

/// A digit more: a number that is read and one more digit of its base make
/// the number times the base and the digit, unless that is more than `max`.
pub proof fn a_digit_more_is_read(field: Seq<u8>, byte: u8, radix: nat, max: nat, d: nat)
    requires
        number_in(field, radix, max) is Some,
        d < radix <= 36,
        byte == 48 + d && d < 10 || byte == 87 + d && d >= 10 || byte == 55 + d && d >= 10,
    ensures
        number_in(field.push(byte), radix, max) == {
            let value = number_in(field, radix, max)->0 * radix + d;
            if value <= max {
                Some(value)
            } else {
                None
            }
        },
{
    let longer = field.push(byte);
    let digits = unsigned(field);
    if field[0] == 43 {
        // A plus sign alone is no number, so digits follow it.
        if field.len() == 1 {
            assert(digits =~= field);
            assert(digit_value(43) is None);
            assert(digits_value(field, radix) is None) by {
                assert(field.last() == 43);
            }
        }
        assert(unsigned(longer) =~= digits.push(byte));
    } else {
        assert(unsigned(longer) =~= digits.push(byte));
    }
    assert(digits.push(byte).drop_last() =~= digits);
    assert(digit_value(byte) == Some(d));
}

/// What is no digit is refused: a number is at least one digit of its base,
/// after a plus sign or not.
pub proof fn only_digits_are_read(field: Seq<u8>, radix: nat, max: nat)
    requires
        number_in(field, radix, max) is Some,
    ensures
        field.len() > 0,
        number_in(field, radix, max)->0 <= max,
        forall|i: int|
            0 <= i < field.len() ==> (digit_value(#[trigger] field[i]) matches Some(d) && d
                < radix) || i == 0 && field[0] == 43 && field.len() > 1,
{
    let digits = unsigned(field);
    lemma_all_are_digits(digits, radix);
    assert forall|i: int| 0 <= i < field.len() implies (digit_value(#[trigger] field[i]) matches
        Some(d) && d < radix) || i == 0 && field[0] == 43 && field.len() > 1 by {
        if field.len() > 1 && field[0] == 43 {
            if i > 0 {
                assert(digits[i - 1] == field[i]);
            }
        } else {
            assert(digits[i] == field[i]);
        }
    }
}

proof fn lemma_all_are_digits(digits: Seq<u8>, radix: nat)
    requires
        digits_value(digits, radix) is Some,
    ensures
        all_digits(digits, radix),
    decreases digits.len(),
{
    if digits.len() > 0 {
        let earlier = digits.drop_last();
        lemma_all_are_digits(earlier, radix);
        assert forall|i: int| 0 <= i < digits.len() implies (digit_value(
            #[trigger] digits[i],
        ) matches Some(d) && d < radix) by {
            if i < digits.len() - 1 {
                assert(digits[i] == earlier[i]);
            }
        }
    }
}

} // verus!
