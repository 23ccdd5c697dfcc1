//! Numbers as text.
use vstd::prelude::*;
use vstd::string::StringExecFns;

verus! {

/// A digit below sixteen.
pub open spec fn digit(d: int) -> Seq<char> {
    if d == 0 {
        "0"@
    } else if d == 1 {
        "1"@
    } else if d == 2 {
        "2"@
    } else if d == 3 {
        "3"@
    } else if d == 4 {
        "4"@
    } else if d == 5 {
        "5"@
    } else if d == 6 {
        "6"@
    } else if d == 7 {
        "7"@
    } else if d == 8 {
        "8"@
    } else if d == 9 {
        "9"@
    } else if d == 10 {
        "a"@
    } else if d == 11 {
        "b"@
    } else if d == 12 {
        "c"@
    } else if d == 13 {
        "d"@
    } else if d == 14 {
        "e"@
    } else {
        "f"@
    }
}

fn digit_text(d: usize) -> (s: &'static str)
    requires
        d < 16,
    ensures
        s@ == digit(d as int),
{
    match d {
        0 => "0",
        1 => "1",
        2 => "2",
        3 => "3",
        4 => "4",
        5 => "5",
        6 => "6",
        7 => "7",
        8 => "8",
        9 => "9",
        10 => "a",
        11 => "b",
        12 => "c",
        13 => "d",
        14 => "e",
        _ => "f",
    }
}

/// A number in decimal.
pub open spec fn decimal(n: nat) -> Seq<char>
    decreases n,
{
    if n < 10 {
        digit(n as int)
    } else {
        decimal(n / 10) + digit((n % 10) as int)
    }
}

/// A number in decimal.
pub fn decimal_of(n: usize) -> (s: String)
    ensures
        s@ == decimal(n as nat),
{
    wide_decimal(n as u128)
}

/// A product in decimal, though it fits no machine word.
pub fn product_text(a: usize, b: usize) -> (s: String)
    ensures
        s@ == decimal((a * b) as nat),
{
    assert(0 <= a * b <= u128::MAX) by (nonlinear_arith)
        requires
            0 <= a <= 0xffff_ffff_ffff_ffff,
            0 <= b <= 0xffff_ffff_ffff_ffff,
    ;
    wide_decimal(a as u128 * b as u128)
}

/// A wide number in decimal.
fn wide_decimal(n: u128) -> (s: String)
    ensures
        s@ == decimal(n as nat),
    decreases n,
{
    if n < 10 {
        digit_text(n as usize).to_owned()
    } else {
        let mut s = wide_decimal(n / 10);
        s.append(digit_text((n % 10) as usize));
        s
    }
}

/// A byte in hexadecimal: two digits.
pub open spec fn hex(b: u8) -> Seq<char> {
    digit(b as int / 16) + digit(b as int % 16)
}

/// A byte in hexadecimal: two digits.
pub fn hex_of(b: u8) -> (s: String)
    ensures
        s@ == hex(b),
{
    let mut s = digit_text(b as usize / 16).to_owned();
    s.append(digit_text(b as usize % 16));
    s
}

} // verus!
