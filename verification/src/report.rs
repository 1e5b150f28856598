//! Numbers for people to read.

use vstd::prelude::*;
use vstd::arithmetic::div_mod::lemma_div_denominator;

verus! {

/// Calls `String::push` of the standard library, which appends one
/// character to the end of a string: afterwards `text` is what it was,
/// followed by `c`.
#[verifier::external_body]
fn push_char(text: &mut String, c: char)
    ensures
        final(text)@ == old(text)@.push(c),
{
    text.push(c);
}

/// The character for the decimal digit `d`: `'0'` for 0, and so on up to
/// `'9'`.
pub open spec fn digit(d: int) -> char {
    ('0' as int + d) as char
}

/// The decimal digits of `n`, without leading zeros.
pub open spec fn decimal(n: nat) -> Seq<char>
    decreases n,
{
    if n < 10 {
        seq![digit(n as int)]
    } else {
        decimal(n / 10).push(digit((n % 10) as int))
    }
}

/// The three decimal digits of a number below 1000, with leading zeros.
pub open spec fn triple(m: nat) -> Seq<char> {
    seq![digit((m / 100) as int), digit(((m / 10) % 10) as int), digit((m % 10) as int)]
}

/// The decimal digits of `n` with a comma before every group of three
/// digits, counted from the right, but not in front.
pub open spec fn grouped(n: nat) -> Seq<char>
    decreases n,
{
    if n < 1000 {
        decimal(n)
    } else {
        grouped(n / 1000) + seq![','] + triple(n % 1000)
    }
}

/// Whether `s` is a power of 1000.
spec fn is_scale(s: nat) -> bool
    decreases s,
{
    s == 1 || (s >= 1000 && s % 1000 == 0 && is_scale(s / 1000))
}

/// The character for one decimal digit.
fn digit_char(d: u64) -> (c: char)
    requires
        d < 10,
    ensures
        c == digit(d as int),
{
    match d {
        0 => '0',
        1 => '1',
        2 => '2',
        3 => '3',
        4 => '4',
        5 => '5',
        6 => '6',
        7 => '7',
        8 => '8',
        _ => '9',
    }
}

/// Writes `n` in decimal with commas between the thousands: 1234567 gives
/// `1,234,567`.
pub fn group_thousands(n: u64) -> (text: String)
    ensures
        text@ == grouped(n as nat),
{
    let mut scale: u64 = 1;
    while n / scale >= 1000
        invariant
            scale >= 1,
            is_scale(scale as nat),
            scale <= n || scale == 1,
        decreases n - scale,
    {
        assert(n >= 1000 * scale) by (nonlinear_arith)
            requires
                scale >= 1,
                n / scale >= 1000,
        ;
        scale = scale * 1000;
        assert(is_scale(scale as nat)) by {
            assert((scale / 1000) as nat == (scale as nat) / 1000);
        }
    }
    let head: u64 = n / scale;
    let mut text = String::new();
    if head >= 100 {
        push_char(&mut text, digit_char(head / 100));
    }
    if head >= 10 {
        push_char(&mut text, digit_char((head / 10) % 10));
    }
    push_char(&mut text, digit_char(head % 10));
    proof {
        reveal_with_fuel(decimal, 3);
        assert(text@ =~= decimal(head as nat));
    }
    while scale > 1
        invariant
            scale >= 1,
            is_scale(scale as nat),
            scale <= n || scale == 1,
            text@ == grouped((n / scale) as nat),
        decreases scale,
    {
        let ghost above: nat = (n / scale) as nat;
        scale = scale / 1000;
        let group: u64 = (n / scale) % 1000;
        proof {
            lemma_div_denominator(n as int, scale as int, 1000);
            assert(scale * 1000 == 1000 * scale);
            assert((n / scale) / 1000 == above);
            assert(n / scale >= 1000) by (nonlinear_arith)
                requires
                    scale >= 1,
                    n >= 1000 * scale,
            ;
        }
        push_char(&mut text, ',');
        push_char(&mut text, digit_char(group / 100));
        push_char(&mut text, digit_char((group / 10) % 10));
        push_char(&mut text, digit_char(group % 10));
        proof {
            assert(text@ =~= grouped(above) + seq![','] + triple(group as nat));
        }
    }
    text
}

} // verus!
