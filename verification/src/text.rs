//! Numbers as text.

use vstd::prelude::*;
use vstd::string::{StrSliceExecFns, StringExecFns};

verus! {

/// The character of a digit, lower case above nine.
pub open spec fn digit_char(d: nat) -> char {
    if d < 10 {
        (48 + d) as char
    } else {
        (87 + d) as char
    }
}

/// `n` written in base `radix`, with zeros in front up to `width` digits.
pub open spec fn numeral(n: nat, radix: nat, width: nat) -> Seq<char>
    decreases n + width,
{
    if radix < 2 || (n < radix && width <= 1) {
        seq![digit_char(n)]
    } else {
        proof {
            if n >= radix {
                vstd::arithmetic::div_mod::lemma_div_decreases(n as int, radix as int);
            } else {
                vstd::arithmetic::div_mod::lemma_basic_div(n as int, radix as int);
            }
        }
        numeral(
            n / radix,
            radix,
            if width > 0 {
                (width - 1) as nat
            } else {
                0
            },
        ).push(digit_char(n % radix))
    }
}

/// `n` in decimal.
pub open spec fn decimal(n: nat) -> Seq<char> {
    numeral(n, 10, 1)
}

fn digit_str(d: u64) -> (r: &'static str)
    requires
        d < 16,
    ensures
        r@ == seq![digit_char(d as nat)],
{
    proof {
        reveal_strlit("0");
        reveal_strlit("1");
        reveal_strlit("2");
        reveal_strlit("3");
        reveal_strlit("4");
        reveal_strlit("5");
        reveal_strlit("6");
        reveal_strlit("7");
        reveal_strlit("8");
        reveal_strlit("9");
        reveal_strlit("a");
        reveal_strlit("b");
        reveal_strlit("c");
        reveal_strlit("d");
        reveal_strlit("e");
        reveal_strlit("f");
    }
    let r = match d {
        0 => "0",
        1 => "1",
        2 => "2",
        3 => "3",
        4 => "4",
        5 => "5",
        6 => "6",
        7 => "7",
        8 => "8",
        9 => "9",
        10 => "a",
        11 => "b",
        12 => "c",
        13 => "d",
        14 => "e",
        _ => "f",
    };
    assert(r@ =~= seq![digit_char(d as nat)]);
    r
}

/// Append `n` in base `radix`, with zeros in front up to `width` digits.
pub fn push_numeral(s: &mut String, n: u64, radix: u64, width: u8)
    requires
        2 <= radix <= 16,
    ensures
        final(s)@ == old(s)@ + numeral(n as nat, radix as nat, width as nat),
    decreases n + width,
{
    if n >= radix || width > 1 {
        proof {
            if n >= radix {
                vstd::arithmetic::div_mod::lemma_div_decreases(n as int, radix as int);
            } else {
                vstd::arithmetic::div_mod::lemma_basic_div(n as int, radix as int);
            }
        }
        push_numeral(
            s,
            n / radix,
            radix,
            if width > 0 {
                width - 1
            } else {
                0
            },
        );
        proof {
            vstd::arithmetic::div_mod::lemma_mod_bound(n as int, radix as int);
        }
    }
    let d: u64 = if n >= radix || width > 1 {
        n % radix
    } else {
        n
    };
    let ghost before = s@;
    s.append(digit_str(d));
    assert(s@ =~= before.push(digit_char(d as nat)));
    assert(s@ =~= old(s)@ + numeral(n as nat, radix as nat, width as nat));
}

/// Append `n` in decimal.
pub fn push_decimal(s: &mut String, n: u64)
    ensures
        final(s)@ == old(s)@ + decimal(n as nat),
{
    push_numeral(s, n, 10, 1);
}

/// `n` blanks.
pub open spec fn blanks(n: int) -> Seq<char> {
    Seq::new(
        if n > 0 {
            n as nat
        } else {
            0
        },
        |i: int| ' ',
    )
}

/// `n` in decimal, with blanks in front up to `width` characters.
pub open spec fn padded(n: nat, width: int) -> Seq<char> {
    blanks(width - decimal(n).len()) + decimal(n)
}

/// Append `n` in decimal, with blanks in front up to `width` characters.
pub fn push_padded(s: &mut String, n: u64, width: usize)
    ensures
        final(s)@ == old(s)@ + padded(n as nat, width as int),
{
    let mut digits: String = String::new();
    push_decimal(&mut digits, n);
    assert(digits@ =~= decimal(n as nat));
    let len: usize = digits.as_str().unicode_len();
    let mut i: usize = len;
    assert(s@ =~= old(s)@ + blanks(0));
    while i < width
        invariant
            len <= i,
            i <= width || i == len,
            digits@ == decimal(n as nat),
            s@ == old(s)@ + blanks(i - len),
        decreases width - i,
    {
        let ghost before = s@;
        s.append(" ");
        proof {
            reveal_strlit(" ");
            assert(s@ =~= old(s)@ + blanks(i + 1 - len));
        }
        i = i + 1;
    }
    assert(s@ == old(s)@ + blanks(width - len));
    s.append(digits.as_str());
    assert(s@ =~= old(s)@ + padded(n as nat, width as int));
}

} // verus!
