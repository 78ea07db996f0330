//! Texts of error messages.

use vstd::prelude::*;
use vstd::string::{StrSliceExecFns, StringExecFns};

verus! {

/// A decimal digit.
pub open spec fn digit(d: int) -> Seq<char> {
    if d == 0 {
        "0"@
    } else if d == 1 {
        "1"@
    } else if d == 2 {
        "2"@
    } else if d == 3 {
        "3"@
    } else if d == 4 {
        "4"@
    } else if d == 5 {
        "5"@
    } else if d == 6 {
        "6"@
    } else if d == 7 {
        "7"@
    } else if d == 8 {
        "8"@
    } else {
        "9"@
    }
}

/// A number in decimal, without leading zeros.
pub open spec fn decimal(n: nat) -> Seq<char>
    decreases n,
{
    if n < 10 {
        digit(n as int)
    } else {
        decimal(n / 10) + digit((n % 10) as int)
    }
}

fn digit_text(d: usize) -> (r: &'static str)
    requires
        d < 10,
    ensures
        r@ == digit(d as int),
{
    match d {
        0 => "0",
        1 => "1",
        2 => "2",
        3 => "3",
        4 => "4",
        5 => "5",
        6 => "6",
        7 => "7",
        8 => "8",
        _ => "9",
    }
}

/// Writes a number in decimal.
pub fn number(n: usize) -> (r: String)
    ensures
        r@ == decimal(n as nat),
    decreases n,
{
    if n < 10 {
        String::from_str(digit_text(n))
    } else {
        number(n / 10).concat(digit_text(n % 10))
    }
}

/// An upper-case hexadecimal digit.
pub open spec fn hex_digit(d: int) -> Seq<char> {
    if d < 10 {
        digit(d)
    } else if d == 10 {
        "A"@
    } else if d == 11 {
        "B"@
    } else if d == 12 {
        "C"@
    } else if d == 13 {
        "D"@
    } else if d == 14 {
        "E"@
    } else {
        "F"@
    }
}

/// A byte in upper-case hexadecimal, without a leading zero.
pub open spec fn hexadecimal(n: u8) -> Seq<char> {
    if n < 16 {
        hex_digit(n as int)
    } else {
        hex_digit(n as int / 16) + hex_digit(n as int % 16)
    }
}

/// `s` with a space in place of every NUL, which a C string could not hold.
pub open spec fn without_nul(s: Seq<char>) -> Seq<char> {
    s.map_values(|c: char| if c == '\0' { ' ' } else { c })
}

/// Puts a space in place of every NUL.
pub fn replace_nul(s: &str) -> (r: String)
    ensures
        r@ == without_nul(s@),
{
    let n: usize = s.unicode_len();
    let mut out: String = String::new();
    let mut i: usize = 0;
    proof {
        reveal_strlit(" ");
        assert(without_nul(s@.take(0)) =~= Seq::<char>::empty());
    }
    while i < n
        invariant
            i <= n,
            n == s@.len(),
            out@ == without_nul(s@.take(i as int)),
            " "@ =~= seq![' '],
        decreases n - i,
    {
        if s.get_char(i) == '\0' {
            out.append(" ");
        } else {
            out.append(s.substring_char(i, i + 1));
        }
        i = i + 1;
        proof {
            assert(out@ =~= without_nul(s@.take(i as int)));
        }
    }
    proof {
        assert(s@.take(n as int) =~= s@);
    }
    out
}

} // verus!
