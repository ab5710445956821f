//! Decimal numbers in text.

use vstd::prelude::*;
use vstd::string::StringExecFns;

verus! {

/// The character of a digit.
pub open spec fn digit_char(d: nat) -> char {
    if d == 0 {
        '0'
    } else if d == 1 {
        '1'
    } else if d == 2 {
        '2'
    } else if d == 3 {
        '3'
    } else if d == 4 {
        '4'
    } else if d == 5 {
        '5'
    } else if d == 6 {
        '6'
    } else if d == 7 {
        '7'
    } else if d == 8 {
        '8'
    } else {
        '9'
    }
}

/// The decimal digits of `n`, without leading zeros.
pub open spec fn decimal(n: nat) -> Seq<char>
    decreases n,
{
    if n < 10 {
        seq![digit_char(n)]
    } else {
        decimal(n / 10).push(digit_char(n % 10))
    }
}

/// `count` zeros.
pub open spec fn zeros(count: nat) -> Seq<char> {
    Seq::new(count, |i: int| '0')
}

/// The decimal digits of `n`, with zeros before them up to `width` digits.
pub open spec fn padded(n: nat, width: nat) -> Seq<char> {
    let digits = decimal(n);
    if digits.len() < width {
        zeros((width - digits.len()) as nat) + digits
    } else {
        digits
    }
}

fn digit_text(d: u64) -> (s: &'static str)
    requires
        d < 10,
    ensures
        s@ == seq![digit_char(d as nat)],
{
    proof {
        reveal_strlit("0");
        reveal_strlit("1");
        reveal_strlit("2");
        reveal_strlit("3");
        reveal_strlit("4");
        reveal_strlit("5");
        reveal_strlit("6");
        reveal_strlit("7");
        reveal_strlit("8");
        reveal_strlit("9");
    }
    let s: &'static str = if d == 0 {
        "0"
    } else if d == 1 {
        "1"
    } else if d == 2 {
        "2"
    } else if d == 3 {
        "3"
    } else if d == 4 {
        "4"
    } else if d == 5 {
        "5"
    } else if d == 6 {
        "6"
    } else if d == 7 {
        "7"
    } else if d == 8 {
        "8"
    } else {
        "9"
    };
    assert(s@ =~= seq![digit_char(d as nat)]);
    s
}

/// Write the decimal digits of `n` behind `s`.
pub fn append_decimal(s: &mut String, n: u64)
    ensures
        final(s)@ == old(s)@ + decimal(n as nat),
    decreases n,
{
    if n >= 10 {
        append_decimal(s, n / 10);
    }
    s.append(digit_text(n % 10));
    proof {
        assert(s@ =~= old(s)@ + decimal(n as nat));
    }
}

/// Write `n` behind `s`, with zeros before it up to six digits.
pub fn append_padded(s: &mut String, n: u64)
    ensures
        final(s)@ == old(s)@ + padded(n as nat, 6),
{
    let mut limit: u64 = 100_000;
    let mut count: usize = 0;
    proof {
        reveal_strlit("0");
        reveal_with_fuel(decimal, 7);
        assert(s@ =~= old(s)@ + zeros(0));
        lemma_decimal_nonempty(n as nat / 1_000_000);
    }
    while limit > n && limit >= 10
        invariant
            count <= 5,
            limit == 100_000 && count == 0 || limit == 10_000 && count == 1 || limit == 1000 && count
                == 2 || limit == 100 && count == 3 || limit == 10 && count == 4 || limit == 1 && count
                == 5,
            count > 0 ==> n < 10 * limit,
            s@ == old(s)@ + zeros(count as nat),
            "0"@ == seq!['0'],
        decreases limit,
    {
        s.append("0");
        assert(s@ =~= old(s)@ + zeros((count + 1) as nat));
        limit = limit / 10;
        count = count + 1;
    }
    proof {
        reveal_with_fuel(decimal, 7);
        if n >= 1_000_000 {
            assert(decimal(n as nat).len() >= 6);
        }
        assert(count > 0 ==> decimal(n as nat).len() == 6 - count);
        assert(count == 0 ==> decimal(n as nat).len() >= 6);
        assert(old(s)@ + zeros(count as nat) + decimal(n as nat) =~= old(s)@ + padded(n as nat, 6));
    }
    append_decimal(s, n);
}

proof fn lemma_decimal_nonempty(n: nat)
    ensures
        decimal(n).len() > 0,
{
}

/// The number that decimal digits denote.
pub open spec fn value_of(s: Seq<char>) -> nat
    decreases s.len(),
{
    if s.len() == 0 {
        0
    } else {
        10 * value_of(s.drop_last()) + digit_value(s.last())
    }
}

pub open spec fn digit_value(c: char) -> nat {
    if '0' <= c && c <= '9' {
        (c as int - '0' as int) as nat
    } else {
        0
    }
}

/// The digits of a number denote it.
pub proof fn lemma_value_of_decimal(n: nat)
    ensures
        value_of(decimal(n)) == n,
    decreases n,
{
    if n < 10 {
        assert(decimal(n).drop_last() =~= Seq::empty());
        assert(value_of(Seq::<char>::empty()) == 0);
        assert(digit_value(digit_char(n)) == n);
    } else {
        assert(digit_value(digit_char(n % 10)) == n % 10);
        lemma_value_of_decimal(n / 10);
        assert(decimal(n).drop_last() =~= decimal(n / 10));
    }
}

proof fn lemma_value_after_zeros(count: nat, s: Seq<char>)
    ensures
        value_of(zeros(count) + s) == value_of(s),
    decreases count + s.len(),
{
    let t = zeros(count) + s;
    if s.len() > 0 {
        assert(t.drop_last() =~= zeros(count) + s.drop_last());
        lemma_value_after_zeros(count, s.drop_last());
    } else if count > 0 {
        assert(t.drop_last() =~= zeros((count - 1) as nat) + s);
        lemma_value_after_zeros((count - 1) as nat, s);
    } else {
        assert(t =~= s);
    }
}

/// Different numbers are written differently, also with zeros before them.
pub proof fn lemma_padded_distinct(a: nat, b: nat, width: nat)
    requires
        padded(a, width) == padded(b, width),
    ensures
        a == b,
{
    lemma_value_of_padded(a, width);
    lemma_value_of_padded(b, width);
}

/// Zeros before the digits of a number do not change what they denote.
pub proof fn lemma_value_of_padded(n: nat, width: nat)
    ensures
        value_of(padded(n, width)) == n,
{
    lemma_value_of_decimal(n);
    if decimal(n).len() < width {
        lemma_value_after_zeros((width - decimal(n).len()) as nat, decimal(n));
    }
}

} // verus!
