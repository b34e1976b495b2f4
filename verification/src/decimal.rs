//! Decimal notation of natural numbers.

use vstd::prelude::*;

verus! {

/// The character of the decimal digit `d`.
pub open spec fn digit_char(d: nat) -> char {
    if d == 0 {
        '0'
    } else if d == 1 {
        '1'
    } else if d == 2 {
        '2'
    } else if d == 3 {
        '3'
    } else if d == 4 {
        '4'
    } else if d == 5 {
        '5'
    } else if d == 6 {
        '6'
    } else if d == 7 {
        '7'
    } else if d == 8 {
        '8'
    } else {
        '9'
    }
}

/// The decimal notation of `n`, without leading zeros; zero is `0`.
pub open spec fn decimal_digits(n: nat) -> Seq<char>
    decreases n,
{
    if n < 10 {
        seq![digit_char(n)]
    } else {
        decimal_digits(n / 10).push(digit_char(n % 10))
    }
}

/// The notation of the digits above the lowest ones: nothing where no digit
/// is left.
pub open spec fn high_digits(n: nat) -> Seq<char> {
    if n == 0 {
        Seq::empty()
    } else {
        decimal_digits(n)
    }
}

/// The characters of digits that are held lowest first, in reading order.
pub open spec fn low_digits(lows: Seq<u32>) -> Seq<char> {
    Seq::new(lows.len(), |i: int| digit_char(lows[lows.len() - 1 - i] as nat))
}

/// Taking the lowest digit off a number leaves the notation of its tenth in
/// front of that digit.
pub proof fn lemma_split_lowest_digit(n: nat, lows: Seq<u32>)
    requires
        n > 0 || lows.len() == 0,
    ensures
        (if lows.len() == 0 {
            decimal_digits(n)
        } else {
            high_digits(n)
        }) + low_digits(lows) == high_digits(n / 10) + low_digits(lows.push((n % 10) as u32)),
{
    let front = if lows.len() == 0 {
        decimal_digits(n)
    } else {
        high_digits(n)
    };
    let c = digit_char(n % 10);
    assert(front == high_digits(n / 10).push(c));
    let more = lows.push((n % 10) as u32);
    assert(low_digits(more) =~= seq![c] + low_digits(lows));
    assert(high_digits(n / 10).push(c) + low_digits(lows) =~= high_digits(n / 10) + (seq![c]
        + low_digits(lows)));
}

/// The text of one decimal digit.
pub fn digit_str(d: u32) -> (s: &'static str)
    requires
        d < 10,
    ensures
        s@ == seq![digit_char(d as nat)],
{
    proof {
        reveal_strlit("0");
        reveal_strlit("1");
        reveal_strlit("2");
        reveal_strlit("3");
        reveal_strlit("4");
        reveal_strlit("5");
        reveal_strlit("6");
        reveal_strlit("7");
        reveal_strlit("8");
        reveal_strlit("9");
    }
    let s: &'static str = if d == 0 {
        "0"
    } else if d == 1 {
        "1"
    } else if d == 2 {
        "2"
    } else if d == 3 {
        "3"
    } else if d == 4 {
        "4"
    } else if d == 5 {
        "5"
    } else if d == 6 {
        "6"
    } else if d == 7 {
        "7"
    } else if d == 8 {
        "8"
    } else {
        "9"
    };
    assert(s@ =~= seq![digit_char(d as nat)]);
    s
}

} // verus!
