//! Numbers as text.

use vstd::prelude::*;

verus! {

/// The digit for a value below 16.
pub open spec fn digit(d: int) -> char {
    if d == 0 {
        '0'
    } else if d == 1 {
        '1'
    } else if d == 2 {
        '2'
    } else if d == 3 {
        '3'
    } else if d == 4 {
        '4'
    } else if d == 5 {
        '5'
    } else if d == 6 {
        '6'
    } else if d == 7 {
        '7'
    } else if d == 8 {
        '8'
    } else if d == 9 {
        '9'
    } else if d == 10 {
        'A'
    } else if d == 11 {
        'B'
    } else if d == 12 {
        'C'
    } else if d == 13 {
        'D'
    } else if d == 14 {
        'E'
    } else {
        'F'
    }
}

/// The digits of a number, with no leading zeros.
pub open spec fn digits(n: nat, radix: nat) -> Seq<char>
    decreases n,
    when radix >= 2
{
    if n < radix {
        seq![digit(n as int)]
    } else {
        proof {
            assert(n / radix < n) by (nonlinear_arith)
                requires
                    2 <= radix <= n,
            ;
        }
        digits(n / radix, radix).push(digit((n % radix) as int))
    }
}

/// A number in decimal.
pub open spec fn decimal(n: int) -> Seq<char> {
    digits(n as nat, 10)
}

/// A number in hexadecimal, with a prefix.
pub open spec fn hexadecimal(n: int) -> Seq<char> {
    seq!['0', 'x'] + digits(n as nat, 16)
}

/// The digit for a value below 16, as a string.
fn digit_str(d: u64) -> (s: &'static str)
    requires
        d < 16,
    ensures
        s@ == seq![digit(d as int)],
{
    proof {
        reveal_strlit("0");
        reveal_strlit("1");
        reveal_strlit("2");
        reveal_strlit("3");
        reveal_strlit("4");
        reveal_strlit("5");
        reveal_strlit("6");
        reveal_strlit("7");
        reveal_strlit("8");
        reveal_strlit("9");
        reveal_strlit("A");
        reveal_strlit("B");
        reveal_strlit("C");
        reveal_strlit("D");
        reveal_strlit("E");
        reveal_strlit("F");
    }
    match d {
        0 => "0",
        1 => "1",
        2 => "2",
        3 => "3",
        4 => "4",
        5 => "5",
        6 => "6",
        7 => "7",
        8 => "8",
        9 => "9",
        10 => "A",
        11 => "B",
        12 => "C",
        13 => "D",
        14 => "E",
        _ => "F",
    }
}

/// Appends the digits of a number.
fn append_digits(out: &mut String, n: u64, radix: u64)
    requires
        2 <= radix <= 16,
    ensures
        final(out)@ == old(out)@ + digits(n as nat, radix as nat),
    decreases n,
{
    if n < radix {
        out.append(digit_str(n));
    } else {
        assert(n / radix < n) by (nonlinear_arith)
            requires
                2 <= radix <= n,
        ;
        append_digits(out, n / radix, radix);
        out.append(digit_str(n % radix));
        proof {
            assert(n as nat / radix as nat == (n / radix) as nat);
            assert(n as nat % radix as nat == (n % radix) as nat);
            assert(old(out)@ + digits(n as nat, radix as nat) =~= old(out)@ + digits(
                (n / radix) as nat,
                radix as nat,
            ) + seq![digit((n % radix) as int)]);
        }
    }
}

/// Appends a number in decimal.
pub fn append_decimal(out: &mut String, n: u64)
    ensures
        final(out)@ == old(out)@ + decimal(n as int),
{
    append_digits(out, n, 10);
}

/// Appends a number in hexadecimal, with a prefix.
pub fn append_hexadecimal(out: &mut String, n: u64)
    ensures
        final(out)@ == old(out)@ + hexadecimal(n as int),
{
    proof {
        reveal_strlit("0x");
    }
    out.append("0x");
    append_digits(out, n, 16);
    proof {
        assert("0x"@ =~= seq!['0', 'x']);
        assert(out@ =~= old(out)@ + hexadecimal(n as int));
    }
}

} // verus!
