//! Numbers as text: the decimal form of a count, and a count of thousandths with
//! three decimals.

use vstd::prelude::*;
use vstd::string::StringExecFns;

verus! {

/// The character of a decimal digit.
pub open spec fn digit(d: int) -> char {
    if d == 0 {
        '0'
    } else if d == 1 {
        '1'
    } else if d == 2 {
        '2'
    } else if d == 3 {
        '3'
    } else if d == 4 {
        '4'
    } else if d == 5 {
        '5'
    } else if d == 6 {
        '6'
    } else if d == 7 {
        '7'
    } else if d == 8 {
        '8'
    } else {
        '9'
    }
}

/// The decimal form of `n`, without leading zeros.
pub open spec fn decimal(n: nat) -> Seq<char>
    decreases n,
{
    if n < 10 {
        seq![digit(n as int)]
    } else {
        decimal(n / 10).push(digit((n % 10) as int))
    }
}

/// A count of thousandths as a number with three decimals: a minus sign where
/// `negative` is set, the whole part, a point, and the thousandths in three digits.
pub open spec fn thousandths(negative: bool, m: nat) -> Seq<char> {
    let sign = if negative {
        seq!['-']
    } else {
        Seq::<char>::empty()
    };
    sign + decimal(m / 1000) + seq![
        '.',
        digit((m / 100 % 10) as int),
        digit((m / 10 % 10) as int),
        digit((m % 10) as int),
    ]
}

/// One decimal digit as text.
fn digit_text(d: u8) -> (s: &'static str)
    requires
        d < 10,
    ensures
        s@ == seq![digit(d as int)],
{
    proof {
        reveal_strlit("0");
        reveal_strlit("1");
        reveal_strlit("2");
        reveal_strlit("3");
        reveal_strlit("4");
        reveal_strlit("5");
        reveal_strlit("6");
        reveal_strlit("7");
        reveal_strlit("8");
        reveal_strlit("9");
    }
    let s: &'static str = if d == 0 {
        "0"
    } else if d == 1 {
        "1"
    } else if d == 2 {
        "2"
    } else if d == 3 {
        "3"
    } else if d == 4 {
        "4"
    } else if d == 5 {
        "5"
    } else if d == 6 {
        "6"
    } else if d == 7 {
        "7"
    } else if d == 8 {
        "8"
    } else {
        "9"
    };
    assert(s@ =~= seq![digit(d as int)]);
    s
}

/// Appends the decimal form of `n` to `out`.
pub fn push_decimal(out: &mut String, n: u128)
    ensures
        final(out)@ == old(out)@ + decimal(n as nat),
    decreases n,
{
    if n >= 10 {
        push_decimal(out, n / 10);
    }
    out.append(digit_text((n % 10) as u8));
    assert(out@ =~= old(out)@ + decimal(n as nat));
}

/// The decimal form of `n`.
pub fn decimal_text(n: u128) -> (s: String)
    ensures
        s@ == decimal(n as nat),
{
    let mut s: String = String::new();
    push_decimal(&mut s, n);
    assert(s@ =~= decimal(n as nat));
    s
}

/// A count of thousandths as a number with three decimals.
pub fn thousandths_text(negative: bool, m: u64) -> (s: String)
    ensures
        s@ == thousandths(negative, m as nat),
{
    let mut s: String = String::new();
    if negative {
        proof {
            reveal_strlit("-");
        }
        s.append("-");
    }
    assert(s@ =~= if negative { seq!['-'] } else { Seq::<char>::empty() });
    push_decimal(&mut s, (m / 1000) as u128);
    proof {
        reveal_strlit(".");
    }
    s.append(".");
    s.append(digit_text((m / 100 % 10) as u8));
    s.append(digit_text((m / 10 % 10) as u8));
    s.append(digit_text((m % 10) as u8));
    assert(s@ =~= thousandths(negative, m as nat));
    s
}

} // verus!
