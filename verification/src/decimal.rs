//! Decimal numerals, right-aligned in a column.

use vstd::prelude::*;
use crate::text::push_chars;

verus! {

/// The character that pads a column.
pub const PAD: char = ' ';

/// The numeral of one digit.
pub open spec fn digit_char(d: nat) -> char {
    if d == 0 {
        '0'
    } else if d == 1 {
        '1'
    } else if d == 2 {
        '2'
    } else if d == 3 {
        '3'
    } else if d == 4 {
        '4'
    } else if d == 5 {
        '5'
    } else if d == 6 {
        '6'
    } else if d == 7 {
        '7'
    } else if d == 8 {
        '8'
    } else {
        '9'
    }
}

/// The decimal numeral of `n`, without sign or leading zeros.
pub open spec fn decimal(n: nat) -> Seq<char>
    decreases n,
{
    if n < 10 {
        seq![digit_char(n)]
    } else {
        decimal(n / 10).push(digit_char(n % 10))
    }
}

/// `s` moved to the right end of a column of `width` characters: padded in
/// front with spaces, and unchanged where it is `width` long or longer.
pub open spec fn right_align(s: Seq<char>, width: nat) -> Seq<char> {
    if s.len() >= width {
        s
    } else {
        Seq::new((width - s.len()) as nat, |i: int| PAD) + s
    }
}

/// The numeral of `n` at the right end of a column of `width` characters.
pub open spec fn column(n: nat, width: nat) -> Seq<char> {
    right_align(decimal(n), width)
}

/// The numeral of the digit `d`.
fn digit(d: u8) -> (c: char)
    requires
        d < 10,
    ensures
        c == digit_char(d as nat),
{
    if d == 0 {
        '0'
    } else if d == 1 {
        '1'
    } else if d == 2 {
        '2'
    } else if d == 3 {
        '3'
    } else if d == 4 {
        '4'
    } else if d == 5 {
        '5'
    } else if d == 6 {
        '6'
    } else if d == 7 {
        '7'
    } else if d == 8 {
        '8'
    } else {
        '9'
    }
}

/// Appends the decimal numeral of `value` to `out`.
pub fn push_decimal(out: &mut Vec<char>, value: u128)
    ensures
        final(out)@ == old(out)@ + decimal(value as nat),
    decreases value,
{
    if value >= 10 {
        push_decimal(out, value / 10);
    }
    let d: u8 = (value % 10) as u8;
    out.push(digit(d));
}

/// Appends the numeral of `value` to `out`, right-aligned in a column of
/// `width` characters.
pub fn push_column(out: &mut Vec<char>, value: u128, width: usize)
    ensures
        final(out)@ == old(out)@ + column(value as nat, width as nat),
{
    let mut numeral: Vec<char> = Vec::new();
    push_decimal(&mut numeral, value);
    let ghost pad_len: int = if numeral@.len() >= width { 0 } else { width - numeral@.len() };
    let mut n: usize = numeral.len();
    while n < width
        invariant
            numeral@ == decimal(value as nat),
            pad_len == if numeral@.len() >= width { 0 } else { width - numeral@.len() },
            numeral@.len() <= n,
            n <= width || n == numeral@.len(),
            out@ == old(out)@ + Seq::new((n - numeral@.len()) as nat, |i: int| PAD),
        decreases width - n,
    {
        out.push(PAD);
        n += 1;
    }
    push_chars(out, numeral.as_slice());
}

} // verus!
