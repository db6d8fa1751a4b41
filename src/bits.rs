//! Powers of two on machine integers.
use vstd::arithmetic::power2::*;
use vstd::bits::*;
use vstd::prelude::*;

verus! {

/// Returns `2^e`.
pub fn pow2_u64(e: u64) -> (r: u64)
    requires
        e < 64,
    ensures
        r as nat == pow2(e as nat),
{
    proof {
        lemma_u64_pow2_no_overflow(e as nat);
        lemma_u64_shl_is_mul(1, e);
    }
    1u64 << e
}

/// Returns `x / 2^e`.
pub fn shr_u64(x: u64, e: u64) -> (r: u64)
    requires
        e < 64,
    ensures
        r as nat == x as nat / pow2(e as nat),
{
    proof {
        lemma_u64_shr_is_div(x, e);
    }
    x >> e
}

/// Returns `x * 2^e`, which must fit.
pub fn shl_u64(x: u64, e: u64) -> (r: u64)
    requires
        e < 64,
        x * pow2(e as nat) <= u64::MAX,
    ensures
        r as nat == x * pow2(e as nat),
{
    proof {
        lemma_u64_shl_is_mul(x, e);
    }
    x << e
}

/// Facts on the powers of two that the codec uses.
pub proof fn lemma_pow2_facts()
    ensures
        pow2(8) == 0x100,
        pow2(32) == 0x1_0000_0000,
        pow2(48) == 0x1_0000_0000_0000,
        pow2(64) == 0x1_0000_0000_0000_0000,
{
    lemma2_to64();
    lemma2_to64_rest();
}

} // verus!
