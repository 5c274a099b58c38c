//! Numbers as text.

use vstd::prelude::*;
use vstd::string::StringExecFns;

verus! {

/// The character that stands for a digit.
pub open spec fn digit_char(digit: nat) -> char {
    ('0' as u32 + digit) as char
}

/// The decimal representation of a number.
pub open spec fn decimal_text(n: nat) -> Seq<char>
    decreases n,
{
    if n < 10 {
        seq![digit_char(n)]
    } else {
        decimal_text(n / 10).push(digit_char(n % 10))
    }
}

/// The text of a single digit.
fn digit(n: usize) -> (r: &'static str)
    requires
        n < 10,
    ensures
        r@ == seq![digit_char(n as nat)],
{
    proof {
        reveal_strlit("0");
        reveal_strlit("1");
        reveal_strlit("2");
        reveal_strlit("3");
        reveal_strlit("4");
        reveal_strlit("5");
        reveal_strlit("6");
        reveal_strlit("7");
        reveal_strlit("8");
        reveal_strlit("9");
    }
    let r: &'static str = match n {
        0 => "0",
        1 => "1",
        2 => "2",
        3 => "3",
        4 => "4",
        5 => "5",
        6 => "6",
        7 => "7",
        8 => "8",
        _ => "9",
    };
    assert(r@ =~= seq![digit_char(n as nat)]);
    r
}

/// Appends the decimal representation of a number to a text.
pub fn append_decimal(text: &mut String, n: usize)
    ensures
        final(text)@ == old(text)@ + decimal_text(n as nat),
    decreases n,
{
    if n >= 10 {
        append_decimal(text, n / 10);
    }
    text.append(digit(n % 10));
    proof {
        if n < 10 {
            assert(n % 10 == n);
        }
        assert(text@ =~= old(text)@ + decimal_text(n as nat));
    }
}

/// A number below ten is written as the character that comes as many places after `0`, and a larger
/// one as the number without its last digit, followed by that digit.
pub proof fn law_decimal_text(n: nat, digit: nat)
    requires
        digit < 10,
    ensures
        digit_char(digit) as u32 == 48 + digit,
        decimal_text(digit).len() == 1,
        decimal_text(digit)[0] as u32 == 48 + digit,
        n > 0 ==> decimal_text(10 * n + digit).len() == decimal_text(n).len() + 1,
        n > 0 ==> decimal_text(10 * n + digit).drop_last() == decimal_text(n),
        n > 0 ==> decimal_text(10 * n + digit).last() as u32 == 48 + digit,
{
    if n > 0 {
        assert((10 * n + digit) / 10 == n && (10 * n + digit) % 10 == digit);
        assert(decimal_text(10 * n + digit).drop_last() =~= decimal_text(n));
    }
}

} // verus!
