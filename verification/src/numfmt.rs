//! Decimal rendering of integers, for the engine's human-readable trace.

use vstd::prelude::*;

verus! {

/// The decimal digit character for `d`.
pub open spec fn digit_char(d: int) -> char {
    if d == 0 {
        '0'
    } else if d == 1 {
        '1'
    } else if d == 2 {
        '2'
    } else if d == 3 {
        '3'
    } else if d == 4 {
        '4'
    } else if d == 5 {
        '5'
    } else if d == 6 {
        '6'
    } else if d == 7 {
        '7'
    } else if d == 8 {
        '8'
    } else {
        '9'
    }
}

/// The decimal digits of `n`, most significant first, without leading
/// zeros (a single zero for zero).
pub open spec fn spec_digits(n: nat) -> Seq<char>
    decreases n,
{
    if n < 10 {
        seq![digit_char(n as int)]
    } else {
        spec_digits(n / 10).push(digit_char((n % 10) as int))
    }
}

/// The decimal rendering of `v`, with a leading minus sign if negative.
pub open spec fn spec_int_str(v: int) -> Seq<char> {
    if v < 0 {
        seq!['-'] + spec_digits((-v) as nat)
    } else {
        spec_digits(v as nat)
    }
}

fn digit_str(d: u8) -> (r: &'static str)
    requires
        d < 10,
    ensures
        r@ == seq![digit_char(d as int)],
{
    proof {
        reveal_strlit("0");
        reveal_strlit("1");
        reveal_strlit("2");
        reveal_strlit("3");
        reveal_strlit("4");
        reveal_strlit("5");
        reveal_strlit("6");
        reveal_strlit("7");
        reveal_strlit("8");
        reveal_strlit("9");
    }
    if d == 0 {
        proof {
            assert("0"@ =~= seq![digit_char(0)]);
        }
        "0"
    } else if d == 1 {
        proof {
            assert("1"@ =~= seq![digit_char(1)]);
        }
        "1"
    } else if d == 2 {
        proof {
            assert("2"@ =~= seq![digit_char(2)]);
        }
        "2"
    } else if d == 3 {
        proof {
            assert("3"@ =~= seq![digit_char(3)]);
        }
        "3"
    } else if d == 4 {
        proof {
            assert("4"@ =~= seq![digit_char(4)]);
        }
        "4"
    } else if d == 5 {
        proof {
            assert("5"@ =~= seq![digit_char(5)]);
        }
        "5"
    } else if d == 6 {
        proof {
            assert("6"@ =~= seq![digit_char(6)]);
        }
        "6"
    } else if d == 7 {
        proof {
            assert("7"@ =~= seq![digit_char(7)]);
        }
        "7"
    } else if d == 8 {
        proof {
            assert("8"@ =~= seq![digit_char(8)]);
        }
        "8"
    } else {
        proof {
            assert("9"@ =~= seq![digit_char(9)]);
        }
        "9"
    }
}

/// Appends the decimal digits of `x` to `s`.
fn push_digits(s: &mut String, x: u128)
    ensures
        final(s)@ == old(s)@ + spec_digits(x as nat),
    decreases x,
{
    if x < 10 {
        s.append(digit_str(x as u8));
        proof {
            assert(old(s)@ + seq![digit_char(x as int)] =~= old(s)@ + spec_digits(x as nat));
        }
    } else {
        proof {
            assert(x / 10 < x) by (nonlinear_arith)
                requires
                    x >= 10,
            ;
        }
        push_digits(s, x / 10);
        let d = (x % 10) as u8;
        s.append(digit_str(d));
        proof {
            assert((x as nat) / 10 == (x / 10) as nat);
            assert((x as nat) % 10 == (x % 10) as nat);
            assert(old(s)@ + spec_digits((x / 10) as nat) + seq![digit_char((x % 10) as int)]
                =~= old(s)@ + spec_digits(x as nat));
        }
    }
}

/// Renders `v` in decimal.
pub fn int_to_string(v: i128) -> (r: String)
    ensures
        r@ == spec_int_str(v as int),
{
    let mut s = String::new();
    if v < 0 {
        proof {
            reveal_strlit("-");
        }
        s.append("-");
        // The magnitude is computed without negating the extreme value.
        let m: u128 = ((-(v + 1)) as u128) + 1;
        proof {
            assert(m as nat == (-(v as int)) as nat);
            assert("-"@ =~= seq!['-']);
        }
        push_digits(&mut s, m);
        proof {
            assert(s@ =~= seq!['-'] + spec_digits((-(v as int)) as nat));
        }
        s
    } else {
        push_digits(&mut s, v as u128);
        proof {
            assert(s@ =~= spec_digits(v as nat));
        }
        s
    }
}

} // verus!
