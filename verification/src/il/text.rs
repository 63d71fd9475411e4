//! Numbers as text, and what strings hold.

use vstd::prelude::*;
use vstd::string::StringExecFns;

verus! {

/// What an optional string holds.
pub open spec fn characters(string: Option<String>) -> Option<Seq<char>> {
    match string {
        Some(string) => Some(string@),
        None => None,
    }
}

/// The hexadecimal digit of a number below sixteen, in lower case.
pub open spec fn hex_digit(d: nat) -> Seq<char> {
    if d == 0 {
        "0"@
    } else if d == 1 {
        "1"@
    } else if d == 2 {
        "2"@
    } else if d == 3 {
        "3"@
    } else if d == 4 {
        "4"@
    } else if d == 5 {
        "5"@
    } else if d == 6 {
        "6"@
    } else if d == 7 {
        "7"@
    } else if d == 8 {
        "8"@
    } else if d == 9 {
        "9"@
    } else if d == 10 {
        "a"@
    } else if d == 11 {
        "b"@
    } else if d == 12 {
        "c"@
    } else if d == 13 {
        "d"@
    } else if d == 14 {
        "e"@
    } else {
        "f"@
    }
}

/// A number in hexadecimal, without prefix and without leading zeros.
pub open spec fn hex(n: nat) -> Seq<char>
    decreases n,
{
    if n < 16 {
        hex_digit(n)
    } else {
        hex(n / 16) + hex_digit(n % 16)
    }
}

/// A number in hexadecimal with at least two digits.
pub open spec fn hex_two(n: nat) -> Seq<char> {
    if n < 16 {
        "0"@ + hex_digit(n)
    } else {
        hex(n)
    }
}

/// A number in decimal, without leading zeros.
pub open spec fn decimal(n: nat) -> Seq<char>
    decreases n,
{
    if n < 10 {
        hex_digit(n)
    } else {
        decimal(n / 10) + hex_digit(n % 10)
    }
}

/// The digit of a number below sixteen.
fn digit(d: u64) -> (text: &'static str)
    requires
        d < 16,
    ensures
        text@ == hex_digit(d as nat),
{
    if d == 0 {
        "0"
    } else if d == 1 {
        "1"
    } else if d == 2 {
        "2"
    } else if d == 3 {
        "3"
    } else if d == 4 {
        "4"
    } else if d == 5 {
        "5"
    } else if d == 6 {
        "6"
    } else if d == 7 {
        "7"
    } else if d == 8 {
        "8"
    } else if d == 9 {
        "9"
    } else if d == 10 {
        "a"
    } else if d == 11 {
        "b"
    } else if d == 12 {
        "c"
    } else if d == 13 {
        "d"
    } else if d == 14 {
        "e"
    } else {
        "f"
    }
}

/// Append `n` in hexadecimal.
pub fn push_hex(text: &mut String, n: u64)
    ensures
        final(text)@ == old(text)@ + hex(n as nat),
    decreases n,
{
    if n >= 16 {
        push_hex(text, n / 16);
    }
    text.append(digit(n % 16));
    proof {
        if n >= 16 {
            assert(text@ =~= old(text)@ + (hex((n / 16) as nat) + hex_digit((n % 16) as nat)));
        }
    }
}

/// Append `n` in hexadecimal with at least two digits.
pub fn push_hex_two(text: &mut String, n: u64)
    ensures
        final(text)@ == old(text)@ + hex_two(n as nat),
{
    if n < 16 {
        text.append("0");
        text.append(digit(n));
        assert(text@ =~= old(text)@ + ("0"@ + hex_digit(n as nat)));
    } else {
        push_hex(text, n);
    }
}

/// Append `n` in decimal.
pub fn push_decimal(text: &mut String, n: u64)
    ensures
        final(text)@ == old(text)@ + decimal(n as nat),
    decreases n,
{
    if n >= 10 {
        push_decimal(text, n / 10);
    }
    text.append(digit(n % 10));
    proof {
        if n >= 10 {
            assert(text@ =~= old(text)@ + (decimal((n / 10) as nat) + hex_digit((n % 10) as nat)));
        }
    }
}

} // verus!
