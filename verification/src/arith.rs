//! Powers of ten and decimal digit extraction, the arithmetic backbone of
//! the tier decomposition.

use vstd::prelude::*;
use vstd::arithmetic::div_mod::{lemma_breakdown, lemma_fundamental_div_mod, lemma_div_pos_is_pos};

verus! {

/// 10 raised to the power `e`.
pub open spec fn pow10(e: nat) -> nat
    decreases e,
{
    if e == 0 {
        1
    } else {
        10 * pow10((e - 1) as nat)
    }
}

/// The decimal digit of `n` at the power-of-ten position `t`.
pub open spec fn digit_at(n: int, t: nat) -> int {
    (n / pow10(t) as int) % 10
}

pub proof fn lemma_pow10_pos(e: nat)
    ensures
        pow10(e) >= 1,
    decreases e,
{
    if e > 0 {
        lemma_pow10_pos((e - 1) as nat);
    }
}

pub proof fn lemma_pow10_mono(a: nat, b: nat)
    requires
        a <= b,
    ensures
        pow10(a) <= pow10(b),
    decreases b,
{
    if a < b {
        lemma_pow10_mono(a, (b - 1) as nat);
        lemma_pow10_pos((b - 1) as nat);
    }
}

/// The concrete powers of ten around the limits of a 64-bit value.
pub proof fn lemma_pow10_vals()
    ensures
        pow10(19) == 10_000_000_000_000_000_000,
        pow10(20) == 100_000_000_000_000_000_000,
        pow10(21) == 1_000_000_000_000_000_000_000,
{
    reveal_with_fuel(pow10, 22);
}

/// Splitting off the digit at position `t`: the residue of `n` below
/// position `t + 1` is that digit's contribution plus the residue below `t`.
pub proof fn lemma_digit_split(n: int, t: nat)
    requires
        n >= 0,
    ensures
        n % pow10(t + 1) as int == digit_at(n, t) * pow10(t) as int + n % pow10(t) as int,
        0 <= digit_at(n, t) <= 9,
        0 <= n % (pow10(t) as int) < (pow10(t) as int),
{
    let p = pow10(t) as int;
    lemma_pow10_pos(t);
    lemma_breakdown(n, p, 10);
    assert(pow10(t + 1) as int == p * 10);
    assert(n % (p * 10) == p * ((n / p) % 10) + n % p);
    lemma_fundamental_div_mod(n, p);
    lemma_div_pos_is_pos(n, p);
    assert(digit_at(n, t) == (n / p) % 10);
    assert(n % (pow10(t + 1) as int) == n % (p * 10));
    assert(n % (pow10(t + 1) as int) == digit_at(n, t) * p + n % p);
}

} // verus!
