//! Verified rendering of integers as decimal and lowercase hex strings.

use vstd::prelude::*;

verus! {

/// The lowercase hex digit character for a value below 16.
pub open spec fn spec_hex_digit(d: u8) -> char {
    if d == 0 {
        '0'
    } else if d == 1 {
        '1'
    } else if d == 2 {
        '2'
    } else if d == 3 {
        '3'
    } else if d == 4 {
        '4'
    } else if d == 5 {
        '5'
    } else if d == 6 {
        '6'
    } else if d == 7 {
        '7'
    } else if d == 8 {
        '8'
    } else if d == 9 {
        '9'
    } else if d == 10 {
        'a'
    } else if d == 11 {
        'b'
    } else if d == 12 {
        'c'
    } else if d == 13 {
        'd'
    } else if d == 14 {
        'e'
    } else {
        'f'
    }
}

/// Lowercase hex rendering of `n`, most significant digit first, without
/// leading zeros (zero itself renders as a single `'0'`).
pub open spec fn spec_hex(n: u64) -> Seq<char>
    decreases n,
{
    if n < 16 {
        seq![spec_hex_digit(n as u8)]
    } else {
        spec_hex((n / 16) as u64) + seq![spec_hex_digit((n % 16) as u8)]
    }
}

/// Two-digit lowercase hex rendering of a byte.
pub open spec fn spec_hex_byte(b: u8) -> Seq<char> {
    seq![spec_hex_digit((b / 16) as u8), spec_hex_digit((b % 16) as u8)]
}

/// Decimal rendering of `n`, most significant digit first, without leading
/// zeros (zero itself renders as a single `'0'`).
pub open spec fn spec_dec(n: u64) -> Seq<char>
    decreases n,
{
    if n < 10 {
        seq![spec_hex_digit(n as u8)]
    } else {
        spec_dec((n / 10) as u64) + seq![spec_hex_digit((n % 10) as u8)]
    }
}

/// A hex rendering is never empty.
pub proof fn lemma_spec_hex_len(n: u64)
    ensures
        spec_hex(n).len() >= 1,
    decreases n,
{
    if n >= 16 {
        lemma_spec_hex_len((n / 16) as u64);
    }
}

/// A decimal rendering is never empty.
pub proof fn lemma_spec_dec_len(n: u64)
    ensures
        spec_dec(n).len() >= 1,
    decreases n,
{
    if n >= 10 {
        lemma_spec_dec_len((n / 10) as u64);
    }
}

/// A single hex digit as a string slice.
pub fn hex_digit(d: u8) -> (r: &'static str)
    requires
        d < 16,
    ensures
        r@ == seq![spec_hex_digit(d)],
{
    proof {
        reveal_strlit("0");
        reveal_strlit("1");
        reveal_strlit("2");
        reveal_strlit("3");
        reveal_strlit("4");
        reveal_strlit("5");
        reveal_strlit("6");
        reveal_strlit("7");
        reveal_strlit("8");
        reveal_strlit("9");
        reveal_strlit("a");
        reveal_strlit("b");
        reveal_strlit("c");
        reveal_strlit("d");
        reveal_strlit("e");
        reveal_strlit("f");
    }
    match d {
        0 => "0",
        1 => "1",
        2 => "2",
        3 => "3",
        4 => "4",
        5 => "5",
        6 => "6",
        7 => "7",
        8 => "8",
        9 => "9",
        10 => "a",
        11 => "b",
        12 => "c",
        13 => "d",
        14 => "e",
        _ => "f",
    }
}

/// Render `n` in lowercase hex.
pub fn hex_u64(n: u64) -> (r: String)
    ensures
        r@ == spec_hex(n),
    decreases n,
{
    if n < 16 {
        hex_digit(n as u8).to_owned()
    } else {
        hex_u64(n / 16).concat(hex_digit((n % 16) as u8))
    }
}

/// Render a byte as exactly two lowercase hex digits.
pub fn hex_byte(b: u8) -> (r: String)
    ensures
        r@ == spec_hex_byte(b),
{
    hex_digit(b / 16).to_owned().concat(hex_digit(b % 16))
}

/// Render `n` in decimal.
pub fn dec_u64(n: u64) -> (r: String)
    ensures
        r@ == spec_dec(n),
    decreases n,
{
    if n < 10 {
        hex_digit(n as u8).to_owned()
    } else {
        dec_u64(n / 10).concat(hex_digit((n % 10) as u8))
    }
}

} // verus!
