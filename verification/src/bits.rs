//! Bit lengths and shifts of machine words, stated over powers of two.
use vstd::prelude::*;
use vstd::arithmetic::power2::{lemma_pow2_pos, lemma_pow2_unfold, lemma_pow2_adds, pow2};
use vstd::arithmetic::div_mod::{lemma_div_denominator, lemma_fundamental_div_mod};
use vstd::std_specs::bits::u64_leading_zeros;

verus! {

/// A nonzero word with `z` leading zeros lies in `[2^(63 - z), 2^(64 - z))`.
pub proof fn lemma_leading_zeros(i: u64)
    requires
        i > 0,
    ensures
        0 <= u64_leading_zeros(i) < 64,
        pow2((63 - u64_leading_zeros(i)) as nat) <= i < pow2((64 - u64_leading_zeros(i)) as nat),
    decreases i,
{
    reveal(u64_leading_zeros);
    if i == 1 {
        assert(u64_leading_zeros(0) == 64);
        assert(u64_leading_zeros(1) == u64_leading_zeros(1u64 / 2) - 1);
        lemma_pow2_unfold(1);
        assert(pow2(0) == 1) by {
            reveal_with_fuel(vstd::arithmetic::power::pow, 1);
        }
        lemma_leading_zeros_small(i);
    } else {
        lemma_leading_zeros(i / 2);
        let z = u64_leading_zeros(i / 2);
        lemma_pow2_unfold((64 - z) as nat);
        lemma_pow2_unfold((65 - z) as nat);
        lemma_leading_zeros_small(i);
    }
}

/// The leading zero count of a nonzero word is at least zero.
proof fn lemma_leading_zeros_small(i: u64)
    ensures
        0 <= u64_leading_zeros(i),
{
    vstd::std_specs::bits::axiom_u64_leading_zeros(i);
}

/// A right shift divides by a power of two.
pub proof fn lemma_shr(x: u128, s: u32)
    requires
        s < 128,
    ensures
        x >> s == x as nat / pow2(s as nat),
    decreases s,
{
    lemma_pow2_unfold_zero();
    if s == 0 {
        assert(x >> 0u32 == x) by (bit_vector);
    } else {
        let p: u32 = (s - 1) as u32;
        lemma_shr(x, p);
        assert(x >> s == (x >> p) / 2) by (bit_vector)
            requires
                s == p + 1,
                s < 128,
        ;
        lemma_pow2_unfold(s as nat);
        lemma_pow2_pos(p as nat);
        lemma_div_denominator(x as int, pow2(p as nat) as int, 2);
    }
}

/// A left shift that loses no bits multiplies by a power of two.
pub proof fn lemma_shl(x: u128, s: u32)
    requires
        s < 128,
        x * pow2(s as nat) <= u128::MAX,
    ensures
        x << s == x * pow2(s as nat),
    decreases s,
{
    lemma_pow2_unfold_zero();
    if s == 0 {
        assert(x << 0u32 == x) by (bit_vector);
        assert(x * pow2(0) == x) by (nonlinear_arith)
            requires
                pow2(0) == 1,
        ;
    } else {
        let p: u32 = (s - 1) as u32;
        lemma_pow2_unfold(s as nat);
        lemma_pow2_pos(p as nat);
        assert(x * pow2(s as nat) == 2 * (x * pow2(p as nat))) by (nonlinear_arith)
            requires
                pow2(s as nat) == 2 * pow2(p as nat),
        ;
        lemma_shl(x, p);
        let y: u128 = x << p;
        assert(x << s == y << 1u32) by (bit_vector)
            requires
                y == x << p,
                s == p + 1,
                s < 128,
        ;
        assert(y << 1u32 == 2 * y) by (bit_vector)
            requires
                2 * y <= u128::MAX,
        ;
    }
}

/// `2^0 == 1`.
pub proof fn lemma_pow2_unfold_zero()
    ensures
        pow2(0) == 1,
{
    vstd::arithmetic::power2::lemma2_to64();
}

/// Powers of two grow with their exponent.
pub proof fn lemma_pow2_le(a: nat, b: nat)
    requires
        a <= b,
    ensures
        0 < pow2(a) <= pow2(b),
{
    lemma_pow2_pos(a);
    if a < b {
        vstd::arithmetic::power2::lemma_pow2_strictly_increases(a, b);
    }
}

/// The number of bits of a word: the least `l` with `n < 2^l`.
pub fn bit_len(n: u128) -> (l: u32)
    ensures
        l <= 128,
        n < pow2(l as nat),
        n > 0 ==> l > 0 && pow2((l - 1) as nat) <= n,
        n == 0 ==> l == 0,
{
    let hi: u64 = (n >> 64) as u64;
    let lo: u64 = n as u64;
    proof {
        lemma_shr(n, 64);
        vstd::arithmetic::power2::lemma2_to64();
        vstd::arithmetic::power2::lemma2_to64_rest();
        lemma_fundamental_div_mod(n as int, pow2(64) as int);
        assert(n == (n >> 64u32) * 0x1_0000_0000_0000_0000 + (n as u64)) by (bit_vector);
        assert((n >> 64u32) <= 0xffff_ffff_ffff_ffff) by (bit_vector);
    }
    if hi != 0 {
        let z: u32 = hi.leading_zeros();
        proof {
            lemma_leading_zeros(hi);
            lemma_pow2_adds((63 - z) as nat, 64);
            lemma_pow2_adds((64 - z) as nat, 64);
            assert(pow2((63 - z) as nat) * pow2(64) <= hi * pow2(64)) by (nonlinear_arith)
                requires
                    pow2((63 - z) as nat) <= hi,
            ;
            assert((hi + 1) * pow2(64) <= pow2((64 - z) as nat) * pow2(64)) by (nonlinear_arith)
                requires
                    hi + 1 <= pow2((64 - z) as nat),
            ;
            assert((hi + 1) * pow2(64) == hi * pow2(64) + pow2(64)) by (nonlinear_arith);
        }
        128 - z
    } else if lo != 0 {
        let z: u32 = lo.leading_zeros();
        proof {
            lemma_leading_zeros(lo);
        }
        64 - z
    } else {
        0
    }
}

}
