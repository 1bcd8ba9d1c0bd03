//! Diagnostic rendering of a value as `Dyadra(<numerator>/2^<exponent>)`.

use vstd::prelude::*;
use vstd::string::StringExecFns;

use crate::{Dyadra, exponent, numerator};

verus! {

/// The character for a single decimal digit.
pub open spec fn digit_char(d: nat) -> char {
    if d == 0 {
        '0'
    } else if d == 1 {
        '1'
    } else if d == 2 {
        '2'
    } else if d == 3 {
        '3'
    } else if d == 4 {
        '4'
    } else if d == 5 {
        '5'
    } else if d == 6 {
        '6'
    } else if d == 7 {
        '7'
    } else if d == 8 {
        '8'
    } else {
        '9'
    }
}

/// The decimal digits of `n`, most significant first, with no leading
/// zeros (a single `'0'` for zero itself).
pub open spec fn dec_chars(n: nat) -> Seq<char>
    decreases n,
{
    if n < 10 {
        seq![digit_char(n)]
    } else {
        dec_chars(n / 10).push(digit_char(n % 10))
    }
}

/// The full diagnostic text of a raw word: the decoded numerator and
/// exponent, each in decimal, framed as `Dyadra(<numerator>/2^<exponent>)`.
pub open spec fn debug_chars(w: u64) -> Seq<char> {
    "Dyadra("@ + dec_chars(numerator(w)) + "/2^"@ + dec_chars(exponent(w)) + ")"@
}

/// Appends the character of the single decimal digit `d` to `s`.
fn push_digit(s: &mut String, d: u64)
    requires
        d < 10,
    ensures
        final(s)@ == old(s)@.push(digit_char(d as nat)),
{
    let part: &str = if d == 0 {
        "0"
    } else if d == 1 {
        "1"
    } else if d == 2 {
        "2"
    } else if d == 3 {
        "3"
    } else if d == 4 {
        "4"
    } else if d == 5 {
        "5"
    } else if d == 6 {
        "6"
    } else if d == 7 {
        "7"
    } else if d == 8 {
        "8"
    } else {
        "9"
    };
    proof {
        reveal_strlit("0");
        reveal_strlit("1");
        reveal_strlit("2");
        reveal_strlit("3");
        reveal_strlit("4");
        reveal_strlit("5");
        reveal_strlit("6");
        reveal_strlit("7");
        reveal_strlit("8");
        reveal_strlit("9");
    }
    s.append(part);
    proof {
        assert(s@ =~= old(s)@.push(digit_char(d as nat)));
    }
}

/// Appends the decimal digits of `n`, most significant first, to `s`.
fn push_dec(s: &mut String, n: u64)
    ensures
        final(s)@ == old(s)@ + dec_chars(n as nat),
    decreases n,
{
    if n < 10 {
        push_digit(s, n);
        proof {
            assert(s@ =~= old(s)@ + dec_chars(n as nat));
        }
    } else {
        push_dec(s, n / 10);
        push_digit(s, n % 10);
        proof {
            assert(s@ =~= old(s)@ + dec_chars(n as nat));
        }
    }
}

impl Dyadra {
    /// The diagnostic text `Dyadra(<numerator>/2^<exponent>)`, built from
    /// the decoded numerator and exponent of the raw word.
    pub fn debug_string(&self) -> (r: String)
        ensures
            r@ == debug_chars(self.0),
    {
        let mut s = String::new();
        s.append("Dyadra(");
        push_dec(&mut s, self.mantissa());
        s.append("/2^");
        push_dec(&mut s, self.leading_one());
        s.append(")");
        proof {
            assert(s@ =~= debug_chars(self.0));
        }
        s
    }
}

} // verus!
