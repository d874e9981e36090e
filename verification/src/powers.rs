//! Powers of two, which count the nodes of a layer.

use vstd::arithmetic::power2::{
    lemma_pow2_adds, lemma_pow2_pos, lemma_pow2_strictly_increases, pow2,
};
use vstd::prelude::*;

verus! {

/// Whether `n` is a power of two.
pub open spec fn power_of_two(n: int) -> bool {
    exists|k: nat| n == #[trigger] pow2(k)
}

/// Two to the power of `exponent`.
pub fn two_to_the(exponent: usize) -> (power: usize)
    requires
        exponent < usize::BITS,
    ensures
        power == pow2(exponent as nat),
        power >= 1,
{
    proof {
        vstd::bits::lemma_usize_pow2_no_overflow(exponent as nat);
        vstd::bits::lemma_usize_shl_is_mul(1usize, exponent);
    }
    1usize << exponent
}

/// The first powers of two.
pub proof fn lemma_pow2_small()
    ensures
        pow2(0) == 1,
        pow2(1) == 2,
{
    vstd::arithmetic::power2::lemma2_to64();
}

/// Powers of two grow with the exponent.
pub proof fn lemma_pow2_monotone(small: nat, large: nat)
    requires
        small <= large,
    ensures
        pow2(small) <= pow2(large),
{
    if small < large {
        lemma_pow2_strictly_increases(small, large);
    }
}

/// A power of two is a multiple of every smaller one.
pub proof fn lemma_power_of_two_divides(n: int, e: nat)
    requires
        power_of_two(n),
        n >= pow2(e),
    ensures
        n % pow2(e) as int == 0,
        n / pow2(e) as int >= 1,
        n == (n / pow2(e) as int) * pow2(e),
{
    let k = choose|k: nat| n == #[trigger] pow2(k);
    if k < e {
        lemma_pow2_strictly_increases(k, e);
    }
    let quotient = pow2((k - e) as nat) as int;
    lemma_pow2_pos(e);
    lemma_pow2_pos((k - e) as nat);
    lemma_pow2_adds((k - e) as nat, e);
    vstd::arithmetic::div_mod::lemma_fundamental_div_mod_converse(n, pow2(e) as int, quotient, 0);
}

} // verus!
