use vstd::prelude::*;
use vstd::string::StringExecFns;

verus! {

/// The character of a decimal digit.
pub open spec fn digit_char(d: int) -> char {
    seq!['0', '1', '2', '3', '4', '5', '6', '7', '8', '9'][d]
}

/// Decimal notation of `n`, without leading zeros.
pub open spec fn decimal(n: nat) -> Seq<char>
    decreases n,
{
    if n < 10 {
        seq![digit_char(n as int)]
    } else {
        decimal(n / 10) + seq![digit_char((n % 10) as int)]
    }
}

/// Decimal notation of `x`, with a minus sign when negative.
pub open spec fn signed_decimal(x: int) -> Seq<char> {
    if x < 0 {
        seq!['-'] + decimal((-x) as nat)
    } else {
        decimal(x as nat)
    }
}

fn digit_str(d: u64) -> (r: &'static str)
    requires
        d < 10,
    ensures
        r@ == seq![digit_char(d as int)],
{
    if d == 0 {
        proof { reveal_strlit("0"); }
        "0"
    } else if d == 1 {
        proof { reveal_strlit("1"); }
        "1"
    } else if d == 2 {
        proof { reveal_strlit("2"); }
        "2"
    } else if d == 3 {
        proof { reveal_strlit("3"); }
        "3"
    } else if d == 4 {
        proof { reveal_strlit("4"); }
        "4"
    } else if d == 5 {
        proof { reveal_strlit("5"); }
        "5"
    } else if d == 6 {
        proof { reveal_strlit("6"); }
        "6"
    } else if d == 7 {
        proof { reveal_strlit("7"); }
        "7"
    } else if d == 8 {
        proof { reveal_strlit("8"); }
        "8"
    } else {
        proof { reveal_strlit("9"); }
        "9"
    }
}

/// Appends the decimal notation of `n`.
pub fn push_decimal(s: &mut String, n: u64)
    ensures
        final(s)@ == old(s)@ + decimal(n as nat),
    decreases n,
{
    if n < 10 {
        s.append(digit_str(n));
    } else {
        push_decimal(s, n / 10);
        s.append(digit_str(n % 10));
        assert(final(s)@ =~= old(s)@ + decimal(n as nat)) by {
            assert(decimal(n as nat) == decimal((n / 10) as nat) + seq![digit_char((n % 10) as int)]);
        }
    }
}

/// Appends the decimal notation of `x`, with a minus sign when negative.
pub fn push_signed(s: &mut String, x: i64)
    ensures
        final(s)@ == old(s)@ + signed_decimal(x as int),
{
    if x < 0 {
        proof { reveal_strlit("-"); }
        s.append("-");
        let m: u64 = (-(x + 1)) as u64 + 1;
        push_decimal(s, m);
        assert(final(s)@ =~= old(s)@ + signed_decimal(x as int));
    } else {
        push_decimal(s, x as u64);
    }
}

} // verus!
