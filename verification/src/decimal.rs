//! Decimal numerals.

use vstd::prelude::*;
use vstd::string::*;

verus! {

/// The character of a decimal digit.
pub open spec fn digit(d: nat) -> char {
    if d == 0 {
        '0'
    } else if d == 1 {
        '1'
    } else if d == 2 {
        '2'
    } else if d == 3 {
        '3'
    } else if d == 4 {
        '4'
    } else if d == 5 {
        '5'
    } else if d == 6 {
        '6'
    } else if d == 7 {
        '7'
    } else if d == 8 {
        '8'
    } else {
        '9'
    }
}

/// Whether `c` is one of the ten decimal digits.
pub open spec fn is_digit(c: char) -> bool {
    exists|d: nat| d < 10 && c == #[trigger] digit(d)
}

/// The decimal numeral of `n`, without leading zeros.
pub open spec fn decimal(n: nat) -> Seq<char>
    decreases n,
{
    if n < 10 {
        seq![digit(n)]
    } else {
        decimal(n / 10).push(digit(n % 10))
    }
}

/// A numeral is made of digits, and of at least one.
pub proof fn lemma_decimal_digits(n: nat)
    ensures
        decimal(n).len() >= 1,
        n >= 10 ==> decimal(n).len() >= 2,
        forall|i: int| 0 <= i < decimal(n).len() ==> is_digit(#[trigger] decimal(n)[i]),
    decreases n,
{
    if n < 10 {
        assert(is_digit(digit(n)));
    } else {
        lemma_decimal_digits(n / 10);
        assert(is_digit(digit(n % 10)));
    }
}

/// Different digits have different characters.
pub proof fn lemma_digit_injective(a: nat, b: nat)
    requires
        a < 10,
        b < 10,
        digit(a) == digit(b),
    ensures
        a == b,
{
}

/// Different numbers have different numerals.
pub proof fn lemma_decimal_injective(m: nat, n: nat)
    requires
        decimal(m) == decimal(n),
    ensures
        m == n,
    decreases m,
{
    lemma_decimal_digits(m);
    lemma_decimal_digits(n);
    if m < 10 && n < 10 {
        assert(decimal(m)[0] == digit(m));
        assert(decimal(n)[0] == digit(n));
        lemma_digit_injective(m, n);
    } else if m < 10 || n < 10 {
        assert(decimal(m).len() == decimal(n).len());
    } else {
        let a = decimal(m / 10);
        let b = decimal(n / 10);
        assert(decimal(m).last() == digit(m % 10));
        assert(decimal(n).last() == digit(n % 10));
        assert(a =~= decimal(m).drop_last());
        assert(b =~= decimal(n).drop_last());
        lemma_decimal_injective(m / 10, n / 10);
        lemma_digit_injective(m % 10, n % 10);
    }
}

/// The text of one decimal digit.
fn digit_text(d: u8) -> (text: &'static str)
    requires
        d < 10,
    ensures
        text@ == seq![digit(d as nat)],
{
    proof {
        reveal_strlit("0");
        reveal_strlit("1");
        reveal_strlit("2");
        reveal_strlit("3");
        reveal_strlit("4");
        reveal_strlit("5");
        reveal_strlit("6");
        reveal_strlit("7");
        reveal_strlit("8");
        reveal_strlit("9");
    }
    let text = match d {
        0 => "0",
        1 => "1",
        2 => "2",
        3 => "3",
        4 => "4",
        5 => "5",
        6 => "6",
        7 => "7",
        8 => "8",
        _ => "9",
    };
    assert(text@ =~= seq![digit(d as nat)]);
    text
}

/// The digits of `lower`, which were taken from a number's low end upwards,
/// in reading order.
spec fn reading_order(lower: Seq<u8>) -> Seq<char> {
    Seq::new(lower.len(), |k: int| digit(lower[lower.len() - 1 - k] as nat))
}

/// Writes `n` in decimal.
pub fn decimal_string(n: u64) -> (text: String)
    ensures
        text@ == decimal(n as nat),
{
    let mut lower: Vec<u8> = Vec::new();
    let mut rest: u64 = n;
    assert(decimal(rest as nat) + reading_order(lower@) =~= decimal(n as nat));
    while rest >= 10
        invariant
            forall|k: int| 0 <= k < lower@.len() ==> lower@[k] < 10,
            decimal(n as nat) == decimal(rest as nat) + reading_order(lower@),
        decreases rest,
    {
        let ghost before = lower@;
        lower.push((rest % 10) as u8);
        assert(decimal(rest as nat) + reading_order(before) =~= decimal((rest / 10) as nat)
            + reading_order(lower@)) by {
            assert(reading_order(lower@) =~= seq![digit((rest % 10) as nat)] + reading_order(
                before,
            ));
        }
        rest = rest / 10;
    }
    let mut text = String::new();
    text.append(digit_text(rest as u8));
    let ghost tail = reading_order(lower@);
    let mut i: usize = lower.len();
    assert(text@ =~= decimal(rest as nat) + tail.take(0));
    while i > 0
        invariant
            i <= lower.len(),
            forall|k: int| 0 <= k < lower@.len() ==> lower@[k] < 10,
            tail == reading_order(lower@),
            text@ == decimal(rest as nat) + tail.take(lower.len() - i),
        decreases i,
    {
        i -= 1;
        text.append(digit_text(lower[i]));
        assert(text@ =~= decimal(rest as nat) + tail.take(lower.len() - i));
    }
    assert(tail.take(lower.len() as int) =~= tail);
    text
}

} // verus!
