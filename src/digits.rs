//! Decimal and hexadecimal renderings of unsigned integers.

use vstd::arithmetic::div_mod::lemma_div_decreases;
use vstd::prelude::*;

verus! {

/// The character of digit `d` (below 16), lower-case for ten and above.
pub open spec fn digit_char(d: nat) -> char {
    if d == 0 { '0' } else if d == 1 { '1' } else if d == 2 { '2' } else if d == 3 { '3' }
    else if d == 4 { '4' } else if d == 5 { '5' } else if d == 6 { '6' } else if d == 7 { '7' }
    else if d == 8 { '8' } else if d == 9 { '9' } else if d == 10 { 'a' } else if d == 11 { 'b' }
    else if d == 12 { 'c' } else if d == 13 { 'd' } else if d == 14 { 'e' } else { 'f' }
}

/// The digits of `n` in base `b`, most significant first, without leading zeros
/// ("0" for zero).
pub open spec fn digits_of(n: nat, b: nat) -> Seq<char>
    decreases n,
    via digits_of_decreases
{
    if b < 2 || n < b {
        seq![digit_char(n)]
    } else {
        digits_of(n / b, b).push(digit_char(n % b))
    }
}

#[via_fn]
proof fn digits_of_decreases(n: nat, b: nat) {
    if !(b < 2 || n < b) {
        lemma_div_decreases(n as int, b as int);
    }
}

/// The decimal rendering of `n`.
pub open spec fn dec(n: nat) -> Seq<char> {
    digits_of(n, 10)
}

/// The lower-case hexadecimal rendering of `n`, without a prefix.
pub open spec fn hex(n: nat) -> Seq<char> {
    digits_of(n, 16)
}

fn digit_str(d: u64) -> (r: &'static str)
    requires
        d < 16,
    ensures
        r@ == seq![digit_char(d as nat)],
{
    proof {
        reveal_strlit("0"); reveal_strlit("1"); reveal_strlit("2"); reveal_strlit("3");
        reveal_strlit("4"); reveal_strlit("5"); reveal_strlit("6"); reveal_strlit("7");
        reveal_strlit("8"); reveal_strlit("9"); reveal_strlit("a"); reveal_strlit("b");
        reveal_strlit("c"); reveal_strlit("d"); reveal_strlit("e"); reveal_strlit("f");
    }
    if d == 0 { "0" } else if d == 1 { "1" } else if d == 2 { "2" } else if d == 3 { "3" }
    else if d == 4 { "4" } else if d == 5 { "5" } else if d == 6 { "6" } else if d == 7 { "7" }
    else if d == 8 { "8" } else if d == 9 { "9" } else if d == 10 { "a" } else if d == 11 { "b" }
    else if d == 12 { "c" } else if d == 13 { "d" } else if d == 14 { "e" } else { "f" }
}

/// Appends the base-`b` digits of `n` to `out`.
pub fn push_digits(out: &mut String, n: u64, b: u64)
    requires
        2 <= b <= 16,
    ensures
        final(out)@ == old(out)@ + digits_of(n as nat, b as nat),
    decreases n,
{
    if n >= b {
        proof { lemma_div_decreases(n as int, b as int); }
    }
    if n < b {
        out.append(digit_str(n));
    } else {
        push_digits(out, n / b, b);
        out.append(digit_str(n % b));
        assert(digits_of(n as nat, b as nat) == digits_of((n / b) as nat, b as nat).push(
            digit_char((n % b) as nat),
        ));
        assert(final(out)@ =~= old(out)@ + digits_of(n as nat, b as nat));
    }
}

/// Appends the decimal rendering of `n` to `out`.
pub fn push_dec(out: &mut String, n: u64)
    ensures
        final(out)@ == old(out)@ + dec(n as nat),
{
    push_digits(out, n, 10);
}

/// Appends the hexadecimal rendering of `n` to `out`.
pub fn push_hex(out: &mut String, n: u64)
    ensures
        final(out)@ == old(out)@ + hex(n as nat),
{
    push_digits(out, n, 16);
}

} // verus!
