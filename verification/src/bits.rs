//! Bit-level building blocks: powers of two, bit counts, and the split of a
//! plan word into phases.

use vstd::prelude::*;
use vstd::std_specs::bits::*;

verus! {

/// Exactly one bit of `x` is set.
pub open spec fn is_power_of_two(x: u32) -> bool {
    x != 0 && x & ((x - 1) as u32) == 0
}

/// Position of the highest set bit of `x`; meaningful for `x != 0`.
pub open spec fn spec_high_bit(x: u32) -> u32 {
    (31 - u32_leading_zeros(x)) as u32
}

/// The greatest power of two that is at most `x`, and 1 for `x == 0`.
pub open spec fn spec_floor_power_of_2(x: u32) -> u32 {
    if x == 0 {
        1
    } else {
        1u32 << spec_high_bit(x)
    }
}

/// Number of set bits of `x`.
pub open spec fn popcount(x: u32) -> nat
    decreases x,
{
    if x == 0 {
        0
    } else {
        (x % 2) as nat + popcount(x / 2)
    }
}

/// `x` without its lowest set bit.
pub open spec fn clear_lowest(x: u32) -> u32 {
    x & ((x - 1) as u32)
}

proof fn lemma_top_bit(x: u32, h: u32)
    by (bit_vector)
    requires
        h < 32,
        (x >> h) & 1 != 0,
        h < 31 ==> x >> ((h + 1) as u32) == 0,
    ensures
        x >> h == 1,
        x != 0,
        (1u32 << h) != 0,
        (1u32 << h) & (((1u32 << h) - 1) as u32) == 0,
        (1u32 << h) <= x,
        ((x - (1u32 << h)) as u32) < (1u32 << h),
{
}

/// The highest set bit is the one place `h` with `x >> h == 1`.
pub proof fn lemma_high_bit(x: u32)
    requires
        x != 0,
    ensures
        spec_high_bit(x) < 32,
        x >> spec_high_bit(x) == 1,
        is_power_of_two(spec_floor_power_of_2(x)),
        spec_floor_power_of_2(x) <= x,
        x - spec_floor_power_of_2(x) < spec_floor_power_of_2(x),
{
    axiom_u32_leading_zeros(x);
    let h: u32 = spec_high_bit(x);
    lemma_top_bit(x, h);
}

proof fn lemma_clear_lowest_step(x: u32)
    by (bit_vector)
    requires
        x != 0,
    ensures
        x & ((x - 1) as u32) < x,
        x % 2 == 1u32 ==> x & ((x - 1) as u32) == ((x - 1) as u32) && ((x - 1) as u32) / 2 == x / 2,
        x % 2 == 0u32 ==> (x & ((x - 1) as u32)) % 2 == 0u32 && (x & ((x - 1) as u32)) / 2 == (x / 2)
            & ((x / 2 - 1) as u32) && x / 2 != 0u32,
{
}

/// Clearing the lowest set bit lowers the bit count by one.
pub proof fn lemma_popcount_clear_lowest(x: u32)
    requires
        x != 0,
    ensures
        popcount(x) == popcount(clear_lowest(x)) + 1,
        clear_lowest(x) < x,
    decreases x,
{
    lemma_clear_lowest_step(x);
    if x % 2 == 1 {
        let y: u32 = (x - 1) as u32;
        assert(y % 2 == 0);
        if y != 0 {
            assert(popcount(y) == popcount(y / 2));
        } else {
            assert(x / 2 == 0);
        }
    } else {
        lemma_popcount_clear_lowest(x / 2);
        let c: u32 = clear_lowest(x);
        if c != 0 {
            assert(popcount(c) == popcount(c / 2));
        }
    }
}

/// A word has at most 32 set bits.
pub proof fn lemma_popcount_bound(x: u32)
    ensures
        popcount(x) <= 32,
{
    vstd::arithmetic::power2::lemma2_to64();
    lemma_popcount_bound_by(x, 32);
}

proof fn lemma_pow2_half(x: u32, n: nat)
    requires
        n > 0,
        x < vstd::arithmetic::power2::pow2(n),
    ensures
        x / 2 < vstd::arithmetic::power2::pow2((n - 1) as nat),
{
    vstd::arithmetic::power2::lemma_pow2_unfold(n);
}

proof fn lemma_popcount_bound_by(x: u32, n: nat)
    requires
        x < vstd::arithmetic::power2::pow2(n),
    ensures
        popcount(x) <= n,
    decreases n,
{
    if x != 0 {
        if n == 0 {
            vstd::arithmetic::power2::lemma2_to64();
        } else {
            lemma_pow2_half(x, n);
            lemma_popcount_bound_by(x / 2, (n - 1) as nat);
        }
    }
}

/// Exactly the powers of two have one set bit.
pub proof fn lemma_popcount_power_of_two(x: u32)
    ensures
        is_power_of_two(x) <==> popcount(x) == 1,
{
    if x != 0 {
        lemma_popcount_clear_lowest(x);
        let c: u32 = clear_lowest(x);
        if c != 0 {
            lemma_popcount_clear_lowest(c);
        }
    }
}

/// Position of the highest set bit of `x`.
pub fn high_bit(x: u32) -> (h: u32)
    requires
        x != 0,
    ensures
        h == spec_high_bit(x),
        h < 32,
        x >> h == 1,
{
    proof {
        axiom_u32_leading_zeros(x);
        lemma_high_bit(x);
    }
    31 - x.leading_zeros()
}

/// The greatest power of two that is at most `x`; 1 for `x == 0`.
pub fn floor_power_of_2(x: u32) -> (p: u32)
    ensures
        p == spec_floor_power_of_2(x),
        is_power_of_two(p),
        x != 0 ==> p <= x && x - p < p,
{
    if x == 0 {
        assert(is_power_of_two(1u32)) by (bit_vector);
        1
    } else {
        proof {
            lemma_high_bit(x);
        }
        1u32 << high_bit(x)
    }
}

/// Number of set bits of `x`.
pub fn count_bits(x: u32) -> (n: usize)
    ensures
        n == popcount(x),
        n <= 32,
{
    let mut rest: u32 = x;
    let mut n: usize = 0;
    proof {
        lemma_popcount_bound(x);
    }
    while rest != 0
        invariant
            n + popcount(rest) == popcount(x),
            popcount(x) <= 32,
        decreases rest,
    {
        proof {
            lemma_popcount_clear_lowest(rest);
        }
        rest = rest & (rest - 1);
        n = n + 1;
    }
    n
}

} // verus!
