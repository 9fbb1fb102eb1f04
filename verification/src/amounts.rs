//! Token amounts in base units.

use vstd::prelude::*;

verus! {

/// `10` to the power `e`.
pub open spec fn pow10(e: nat) -> nat
    decreases e,
{
    if e == 0 {
        1
    } else {
        10 * pow10((e - 1) as nat)
    }
}

/// Powers of ten grow with the exponent.
pub proof fn lemma_pow10_monotone(a: nat, b: nat)
    requires
        a <= b,
    ensures
        pow10(a) <= pow10(b),
    decreases b - a,
{
    if a < b {
        lemma_pow10_monotone(a, (b - 1) as nat);
    }
}

/// The two powers of ten that bound the exponents of [`unit`] and of an exact [`token`].
pub proof fn lemma_pow10_bounds()
    ensures
        pow10(19) == 10_000_000_000_000_000_000,
        pow10(20) == 100_000_000_000_000_000_000,
        pow10(38) == 100_000_000_000_000_000_000_000_000_000_000_000_000,
{
    reveal_with_fuel(pow10, 39);
}

/// One whole token in base units when the token has `decimals` decimals: `10^decimals`.
/// The power must fit in a `u128`, which it does up to 38 decimals.
pub fn unit(decimals: u8) -> (u: u128)
    requires
        decimals <= 38,
    ensures
        u == pow10(decimals as nat),
{
    let mut u: u128 = 1;
    let mut i: u8 = 0;
    while i < decimals
        invariant
            decimals <= 38,
            i <= decimals,
            u == pow10(i as nat),
        decreases decimals - i,
    {
        proof {
            lemma_pow10_monotone((i + 1) as nat, 38);
            lemma_pow10_bounds();
        }
        u = u * 10;
        i = i + 1;
    }
    u
}

/// The 64-bit truncation of `10^decimals`: the unit of [`token`] as a `u64`.
pub open spec fn unit_u64(decimals: nat) -> nat {
    pow10(decimals) % 0x1_0000_0000_0000_0000
}

/// `amount` whole tokens of a token with `decimals` decimals, in base units: `amount` times
/// the unit taken as a `u64`. For more than 19 decimals the unit does not fit a `u64` and is
/// cut to its low 64 bits. The product must fit in a `u64`.
pub fn token(amount: u64, decimals: u8) -> (balance: u128)
    requires
        decimals <= 38,
        amount * unit_u64(decimals as nat) <= u64::MAX,
    ensures
        balance == amount * unit_u64(decimals as nat),
{
    let u = unit(decimals);
    let u64_unit: u64 = u as u64;
    assert(u64_unit == u % 0x1_0000_0000_0000_0000) by (bit_vector)
        requires
            u64_unit == u as u64,
    ;
    let product: u64 = amount * u64_unit;
    product as u128
}

/// Law: for a token with at most 19 decimals, [`token`] gives `amount` whole tokens exactly,
/// `amount * 10^decimals` base units.
pub proof fn lemma_token_is_whole_tokens(decimals: nat)
    requires
        decimals <= 19,
    ensures
        unit_u64(decimals) == pow10(decimals),
{
    lemma_pow10_monotone(decimals, 19);
    lemma_pow10_bounds();
}

} // verus!
