//! Rendering integers as decimal and hexadecimal text.

use vstd::prelude::*;
use vstd::string::StringExecFns;

verus! {

/// The character for one decimal digit value.
pub open spec fn digit_char(d: nat) -> char {
    if d == 0 {
        '0'
    } else if d == 1 {
        '1'
    } else if d == 2 {
        '2'
    } else if d == 3 {
        '3'
    } else if d == 4 {
        '4'
    } else if d == 5 {
        '5'
    } else if d == 6 {
        '6'
    } else if d == 7 {
        '7'
    } else if d == 8 {
        '8'
    } else {
        '9'
    }
}

/// The decimal digits of `n`, most significant first, with no sign
/// and no leading zeros (`0` itself is one digit).
pub open spec fn dec_digits(n: nat) -> Seq<char>
    decreases n,
{
    if n < 10 {
        seq![digit_char(n)]
    } else {
        dec_digits(n / 10) + seq![digit_char(n % 10)]
    }
}

/// The decimal text of a signed integer: a `-` sign when negative,
/// then the digits of its absolute value.
pub open spec fn int_text(v: int) -> Seq<char> {
    if v >= 0 {
        dec_digits(v as nat)
    } else {
        seq!['-'] + dec_digits((-v) as nat)
    }
}

/// The character for one hexadecimal digit value, upper case.
pub open spec fn hex_digit_char(d: nat) -> char {
    if d == 10 {
        'A'
    } else if d == 11 {
        'B'
    } else if d == 12 {
        'C'
    } else if d == 13 {
        'D'
    } else if d == 14 {
        'E'
    } else if d == 15 {
        'F'
    } else {
        digit_char(d)
    }
}

/// The hexadecimal text of one byte with a `0x` prefix and no leading
/// zero digit, as the decoder's error messages show a tag type byte.
pub open spec fn hex_byte_text(b: u8) -> Seq<char> {
    if b < 16 {
        seq!['0', 'x'] + seq![hex_digit_char(b as nat)]
    } else {
        seq!['0', 'x'] + seq![hex_digit_char(b as nat / 16), hex_digit_char(b as nat % 16)]
    }
}

/// Appends the character of one decimal digit.
fn append_digit(target: &mut String, d: u64)
    requires
        d < 10,
    ensures
        final(target)@ == old(target)@ + seq![digit_char(d as nat)],
{
    if d == 0 {
        proof {
            reveal_strlit("0");
        }
        target.append("0");
    } else if d == 1 {
        proof {
            reveal_strlit("1");
        }
        target.append("1");
    } else if d == 2 {
        proof {
            reveal_strlit("2");
        }
        target.append("2");
    } else if d == 3 {
        proof {
            reveal_strlit("3");
        }
        target.append("3");
    } else if d == 4 {
        proof {
            reveal_strlit("4");
        }
        target.append("4");
    } else if d == 5 {
        proof {
            reveal_strlit("5");
        }
        target.append("5");
    } else if d == 6 {
        proof {
            reveal_strlit("6");
        }
        target.append("6");
    } else if d == 7 {
        proof {
            reveal_strlit("7");
        }
        target.append("7");
    } else if d == 8 {
        proof {
            reveal_strlit("8");
        }
        target.append("8");
    } else {
        proof {
            reveal_strlit("9");
        }
        target.append("9");
    }
    proof {
        assert(target@ =~= old(target)@ + seq![digit_char(d as nat)]);
    }
}

/// Appends the decimal digits of an unsigned value.
pub fn append_dec_u64(target: &mut String, n: u64)
    ensures
        final(target)@ == old(target)@ + dec_digits(n as nat),
    decreases n,
{
    if n < 10 {
        append_digit(target, n);
    } else {
        append_dec_u64(target, n / 10);
        append_digit(target, n % 10);
        proof {
            assert(target@ =~= old(target)@ + dec_digits(n as nat));
        }
    }
}

/// Appends the decimal text of a signed value.
pub fn append_int_text(target: &mut String, v: i64)
    ensures
        final(target)@ == old(target)@ + int_text(v as int),
{
    if v >= 0 {
        append_dec_u64(target, v as u64);
    } else {
        proof {
            reveal_strlit("-");
        }
        target.append("-");
        let magnitude: u64 = ((-(v + 1)) as u64) + 1;
        append_dec_u64(target, magnitude);
        proof {
            assert(target@ =~= old(target)@ + int_text(v as int));
        }
    }
}

/// Appends one upper-case hexadecimal digit.
fn append_hex_digit(target: &mut String, d: u64)
    requires
        d < 16,
    ensures
        final(target)@ == old(target)@ + seq![hex_digit_char(d as nat)],
{
    if d < 10 {
        append_digit(target, d);
    } else if d == 10 {
        proof {
            reveal_strlit("A");
        }
        target.append("A");
    } else if d == 11 {
        proof {
            reveal_strlit("B");
        }
        target.append("B");
    } else if d == 12 {
        proof {
            reveal_strlit("C");
        }
        target.append("C");
    } else if d == 13 {
        proof {
            reveal_strlit("D");
        }
        target.append("D");
    } else if d == 14 {
        proof {
            reveal_strlit("E");
        }
        target.append("E");
    } else {
        proof {
            reveal_strlit("F");
        }
        target.append("F");
    }
    proof {
        assert(target@ =~= old(target)@ + seq![hex_digit_char(d as nat)]);
    }
}

/// Appends the `0x`-prefixed hexadecimal text of one byte.
pub fn append_hex_byte(target: &mut String, b: u8)
    ensures
        final(target)@ == old(target)@ + hex_byte_text(b),
{
    proof {
        reveal_strlit("0x");
    }
    target.append("0x");
    if b < 16 {
        append_hex_digit(target, b as u64);
    } else {
        append_hex_digit(target, (b / 16) as u64);
        append_hex_digit(target, (b % 16) as u64);
    }
    proof {
        assert(target@ =~= old(target)@ + hex_byte_text(b));
    }
}

} // verus!
