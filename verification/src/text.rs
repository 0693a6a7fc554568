//! Numbers in messages and file names.

use vstd::prelude::*;
use vstd::string::StringExecFns;

verus! {

/// The decimal digit for `d`.
pub open spec fn digit(d: int) -> char {
    if d == 0 {
        '0'
    } else if d == 1 {
        '1'
    } else if d == 2 {
        '2'
    } else if d == 3 {
        '3'
    } else if d == 4 {
        '4'
    } else if d == 5 {
        '5'
    } else if d == 6 {
        '6'
    } else if d == 7 {
        '7'
    } else if d == 8 {
        '8'
    } else {
        '9'
    }
}

/// `n` in decimal, without leading zeros.
pub open spec fn decimal(n: nat) -> Seq<char>
    decreases n,
{
    if n < 10 {
        seq![digit(n as int)]
    } else {
        decimal(n / 10).push(digit((n % 10) as int))
    }
}

/// The digit `d` as a string.
fn digit_text(d: u128) -> (s: &'static str)
    requires
        d < 10,
    ensures
        s@ == seq![digit(d as int)],
{
    proof {
        reveal_strlit("0");
        reveal_strlit("1");
        reveal_strlit("2");
        reveal_strlit("3");
        reveal_strlit("4");
        reveal_strlit("5");
        reveal_strlit("6");
        reveal_strlit("7");
        reveal_strlit("8");
        reveal_strlit("9");
    }
    let s: &'static str = match d {
        0 => "0",
        1 => "1",
        2 => "2",
        3 => "3",
        4 => "4",
        5 => "5",
        6 => "6",
        7 => "7",
        8 => "8",
        _ => "9",
    };
    assert(s@ =~= seq![digit(d as int)]);
    s
}

/// Append `n` in decimal.
pub fn put_decimal(out: &mut String, n: u128)
    ensures
        final(out)@ == old(out)@ + decimal(n as nat),
    decreases n,
{
    if n >= 10 {
        put_decimal(out, n / 10);
    }
    out.append(digit_text(n % 10));
    assert(out@ =~= old(out)@ + decimal(n as nat));
}

/// Append a string.
pub fn put_text(out: &mut String, s: &str)
    ensures
        final(out)@ == old(out)@ + s@,
{
    out.append(s);
}

/// A copy of a string.
pub fn text(s: &str) -> (out: String)
    ensures
        out@ == s@,
{
    String::from_str(s)
}

/// The value of a decimal digit.
pub open spec fn digit_value(c: char) -> int {
    c as int - '0' as int
}

/// Different numbers look different.
pub proof fn lemma_decimal_injective(m: nat, n: nat)
    requires
        decimal(m) == decimal(n),
    ensures
        m == n,
    decreases m,
{
    let a = decimal(m);
    let b = decimal(n);
    lemma_decimal_len(m);
    lemma_decimal_len(n);
    assert(a.last() == b.last());
    assert(a.last() == digit((m % 10) as int)) by {
        if m < 10 {
            assert(m % 10 == m);
        }
    }
    assert(b.last() == digit((n % 10) as int)) by {
        if n < 10 {
            assert(n % 10 == n);
        }
    }
    assert(m % 10 == n % 10);
    if m >= 10 && n >= 10 {
        assert(a.drop_last() =~= decimal(m / 10));
        assert(b.drop_last() =~= decimal(n / 10));
        lemma_decimal_injective(m / 10, n / 10);
    } else if m >= 10 {
        lemma_decimal_len(m / 10);
        assert(a.len() >= 2 && b.len() == 1);
    } else if n >= 10 {
        lemma_decimal_len(n / 10);
        assert(b.len() >= 2 && a.len() == 1);
    }
}

proof fn lemma_decimal_len(n: nat)
    ensures
        decimal(n).len() >= 1,
    decreases n,
{
    if n >= 10 {
        lemma_decimal_len(n / 10);
    }
}

/// A number in decimal: its last digit is the number modulo 10, counted from `0`,
/// and the digits before it are those of a tenth of the number.
pub proof fn law_decimal(n: nat)
    ensures
        decimal(n).len() > 0,
        decimal(n).last() as int == '0' as int + n % 10,
        n < 10 ==> decimal(n).len() == 1,
        n >= 10 ==> decimal(n).drop_last() == decimal(n / 10),
{
    lemma_decimal_len(n);
    if n >= 10 {
        assert(decimal(n).drop_last() =~= decimal(n / 10));
    }
}

} // verus!
