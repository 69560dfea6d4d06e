//! Masks and alignment for sizes that are powers of two.

use vstd::prelude::*;
use vstd::arithmetic::power2::*;
use vstd::arithmetic::power::*;
use vstd::bits::*;

verus! {

/// `x` rounded down to a multiple of `a`.
pub open spec fn spec_round_down(x: int, a: int) -> int {
    x - x % a
}

/// `x` rounded up to a multiple of `a`.
pub open spec fn spec_round_up(x: int, a: int) -> int {
    spec_round_down(x + a - 1, a)
}

/// A power of two that fits in `usize` has an exponent below the word size.
pub proof fn lemma_pow2_fits(e: nat)
    requires
        pow2(e) <= usize::MAX,
    ensures
        e < usize::BITS,
{
    lemma2_to64();
    if e >= usize::BITS {
        if e > usize::BITS {
            lemma_pow2_strictly_increases(usize::BITS as nat, e);
        }
        assert(pow2(usize::BITS as nat) > usize::MAX);
    }
}

/// Masking with `2^e - 1` is reduction modulo `2^e`.
pub proof fn lemma_mask_is_mod(x: usize, mask: usize, e: nat)
    requires
        mask + 1 == pow2(e),
        mask < usize::MAX,
    ensures
        x & mask == x % ((mask + 1) as usize),
{
    lemma_pow2_fits(e);
    lemma_usize_low_bits_mask_is_mod(x, e);
    assert(low_bits_mask(e) == mask);
}

proof fn lemma_clear_low(x: usize, m: usize)
    by (bit_vector)
    ensures
        x & !m == x - (x & m),
{
}

/// Clearing the bits below a power of two rounds down to a multiple of it.
pub proof fn lemma_clear_is_round_down(x: usize, a: usize)
    requires
        is_pow2(a as int),
    ensures
        a >= 1,
        x & !((a - 1) as usize) == spec_round_down(x as int, a as int),
{
    is_pow2_equiv(a as int);
    let e = choose|e: nat| pow(2, e) == a as int;
    assert(pow2(e) == a);
    lemma_pow2_pos(e);
    lemma_mask_is_mod(x, (a - 1) as usize, e);
    lemma_clear_low(x, (a - 1) as usize);
}

/// Eight is a power of two.
pub proof fn lemma_eight_is_pow2()
    ensures
        is_pow2(8),
{
    reveal_with_fuel(is_pow2, 5);
}

/// Rounds `x` down to a multiple of the power of two `a`.
pub fn round_down_to(x: usize, a: usize) -> (r: usize)
    requires
        is_pow2(a as int),
    ensures
        r == spec_round_down(x as int, a as int),
{
    proof {
        lemma_clear_is_round_down(x, a);
    }
    x & !(a - 1)
}

} // verus!
