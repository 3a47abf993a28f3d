use vstd::prelude::*;

use crate::math::rnd_div;
use vstd::string::StringExecFns;

verus! {

// ---------------------------------------------------------------------------
// Verified plain-text formatting of numbers: decimal digits of integers,
// and fixed-point values written with three decimal places.
// ---------------------------------------------------------------------------

pub open spec fn digit_char(d: nat) -> char {
    if d == 0 {
        '0'
    } else if d == 1 {
        '1'
    } else if d == 2 {
        '2'
    } else if d == 3 {
        '3'
    } else if d == 4 {
        '4'
    } else if d == 5 {
        '5'
    } else if d == 6 {
        '6'
    } else if d == 7 {
        '7'
    } else if d == 8 {
        '8'
    } else {
        '9'
    }
}

/// The decimal digits of `n`, most significant first.
pub open spec fn dec_chars(n: nat) -> Seq<char>
    decreases n,
{
    if n < 10 {
        seq![digit_char(n)]
    } else {
        dec_chars(n / 10) + seq![digit_char(n % 10)]
    }
}

/// Appends one digit.
fn push_digit(s: &mut String, d: u64)
    requires
        d < 10,
    ensures
        final(s)@ == old(s)@ + seq![digit_char(d as nat)],
{
    let t: &str = if d == 0 {
        "0"
    } else if d == 1 {
        "1"
    } else if d == 2 {
        "2"
    } else if d == 3 {
        "3"
    } else if d == 4 {
        "4"
    } else if d == 5 {
        "5"
    } else if d == 6 {
        "6"
    } else if d == 7 {
        "7"
    } else if d == 8 {
        "8"
    } else {
        "9"
    };
    proof {
        reveal_strlit("0");
        reveal_strlit("1");
        reveal_strlit("2");
        reveal_strlit("3");
        reveal_strlit("4");
        reveal_strlit("5");
        reveal_strlit("6");
        reveal_strlit("7");
        reveal_strlit("8");
        reveal_strlit("9");
        assert(t@ =~= seq![digit_char(d as nat)]);
    }
    s.append(t);
}

/// Appends the decimal digits of `n`.
pub fn push_u64(s: &mut String, n: u64)
    ensures
        final(s)@ == old(s)@ + dec_chars(n as nat),
    decreases n,
{
    if n < 10 {
        push_digit(s, n);
    } else {
        push_u64(s, n / 10);
        push_digit(s, n % 10);
        proof {
            assert(old(s)@ + dec_chars((n / 10) as nat) + seq![digit_char((n % 10) as nat)]
                =~= old(s)@ + dec_chars(n as nat));
        }
    }
}

/// The text of `v` micro-units with three decimal places: the nearest
/// count of thousandths, ties away from zero, written as a signed
/// integer part and exactly three fraction digits.
pub open spec fn fmt_fixed(v: int) -> Seq<char> {
    let milli = rnd_div(v, 1000);
    let am = if milli >= 0 {
        milli
    } else {
        -milli
    };
    let sign: Seq<char> = if milli < 0 {
        seq!['-']
    } else {
        Seq::empty()
    };
    sign + dec_chars((am / 1000) as nat) + seq!['.'] + seq![
        digit_char(((am / 100) % 10) as nat),
        digit_char(((am / 10) % 10) as nat),
        digit_char((am % 10) as nat),
    ]
}

/// Appends a micro-unit value with three decimal places.
pub fn push_fixed(s: &mut String, v: i64)
    ensures
        final(s)@ == old(s)@ + fmt_fixed(v as int),
{
    let milli: i64 = if v >= 0 {
        let a: u128 = (v as u128) + 500;
        let q: u128 = a / 1000;
        proof {
            assert((a as int) / 1000 <= a as int && (a as int) / 1000 >= 0) by (nonlinear_arith)
                requires a as int >= 0;
            assert((a as int) / 1000 < 9_300_000_000_000_000) by (nonlinear_arith)
                requires
                    0 <= (a as int),
                    (a as int) < 9_300_000_000_000_000_000,
            ;
        }
        q as i64
    } else {
        let a: u128 = ((-(v as i128)) as u128) + 500;
        let q: u128 = a / 1000;
        proof {
            assert((a as int) / 1000 <= a as int && (a as int) / 1000 >= 0) by (nonlinear_arith)
                requires a as int >= 0;
            assert((a as int) / 1000 < 9_300_000_000_000_000) by (nonlinear_arith)
                requires
                    0 <= (a as int),
                    (a as int) < 9_300_000_000_000_000_000,
            ;
        }
        -((q as i128) as i64)
    };
    let am: u64 = if milli >= 0 {
        milli as u64
    } else {
        proof {
            assert(milli as int > i64::MIN as int);
        }
        (-(milli as i128)) as u64
    };
    if milli < 0 {
        proof {
            reveal_strlit("-");
            assert("-"@ =~= seq!['-']);
        }
        s.append("-");
    }
    push_u64(s, am / 1000);
    proof {
        reveal_strlit(".");
        assert("."@ =~= seq!['.']);
    }
    s.append(".");
    push_digit(s, (am / 100) % 10);
    push_digit(s, (am / 10) % 10);
    push_digit(s, am % 10);
    proof {
        let milli_s = rnd_div(v as int, 1000);
        assert(milli as int == milli_s);
        let am_s = if milli_s >= 0 {
            milli_s
        } else {
            -milli_s
        };
        assert(am as int == am_s);
        assert(final(s)@ =~= old(s)@ + fmt_fixed(v as int));
    }
}

} // verus!
