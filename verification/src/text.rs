//! Decimal text for numbers, as it appears inside error messages.

use vstd::prelude::*;

verus! {

/// The character of a decimal digit.
pub open spec fn digit_char(d: nat) -> char {
    (48 + d) as char
}

/// The decimal digits of `n`, most significant first and without leading zeros.
pub open spec fn decimal(n: nat) -> Seq<char>
    decreases n,
{
    if n < 10 {
        seq![digit_char(n)]
    } else {
        decimal(n / 10).push(digit_char(n % 10))
    }
}

/// The first `n` numbers of `s` in decimal, separated by a comma and a space.
pub open spec fn comma_separated(s: Seq<nat>, n: nat) -> Seq<char>
    decreases n,
{
    if n == 0 {
        Seq::empty()
    } else if n == 1 {
        decimal(s[0])
    } else {
        comma_separated(s, (n - 1) as nat) + ", "@ + decimal(s[n - 1])
    }
}

/// A list of numbers in square brackets.
pub open spec fn list_text(s: Seq<nat>) -> Seq<char> {
    "["@ + comma_separated(s, s.len()) + "]"@
}

fn digit_text(d: u64) -> (r: &'static str)
    requires
        d < 10,
    ensures
        r@ == seq![digit_char(d as nat)],
{
    proof {
        reveal_strlit("0");
        reveal_strlit("1");
        reveal_strlit("2");
        reveal_strlit("3");
        reveal_strlit("4");
        reveal_strlit("5");
        reveal_strlit("6");
        reveal_strlit("7");
        reveal_strlit("8");
        reveal_strlit("9");
    }
    let r = match d {
        0 => "0",
        1 => "1",
        2 => "2",
        3 => "3",
        4 => "4",
        5 => "5",
        6 => "6",
        7 => "7",
        8 => "8",
        _ => "9",
    };
    assert(r@ =~= seq![digit_char(d as nat)]);
    r
}

/// Appends the decimal digits of `n` to `out`.
pub fn push_decimal(out: &mut String, n: u64)
    ensures
        final(out)@ == old(out)@ + decimal(n as nat),
    decreases n,
{
    if n < 10 {
        out.append(digit_text(n));
    } else {
        push_decimal(out, n / 10);
        out.append(digit_text(n % 10));
        assert(out@ =~= old(out)@ + decimal(n as nat));
    }
}

/// Appends a list of numbers in square brackets to `out`.
pub fn push_list(out: &mut String, items: &[usize])
    ensures
        final(out)@ == old(out)@ + list_text(items@.map_values(|x: usize| x as nat)),
{
    let ghost start = out@;
    let ghost nums = items@.map_values(|x: usize| x as nat);
    out.append("[");
    for i in 0..items.len()
        invariant
            nums == items@.map_values(|x: usize| x as nat),
            out@ == start + "["@ + comma_separated(nums, i as nat),
    {
        if i > 0 {
            out.append(", ");
        }
        push_decimal(out, items[i] as u64);
        assert(out@ =~= start + "["@ + comma_separated(nums, (i + 1) as nat));
    }
    out.append("]");
    assert(out@ =~= start + list_text(nums));
}

} // verus!
