//! Powers of two, the only lengths that a run may have.

use vstd::prelude::*;

verus! {

/// Whether `n` is a power of two: 1, 2, 4, 8 and so on.
pub open spec fn is_pow2(n: int) -> bool
    decreases n,
{
    n == 1 || (n > 1 && n % 2 == 0 && is_pow2(n / 2))
}

/// Twice a power of two is a power of two.
pub proof fn lemma_pow2_double(n: int)
    requires
        is_pow2(n),
    ensures
        is_pow2(2 * n),
{
    assert(n >= 1);
    assert((2 * n) / 2 == n);
}

/// A power of two above one is even, and its half is a power of two.
pub proof fn lemma_pow2_half(n: int)
    requires
        is_pow2(n),
        n > 1,
    ensures
        n % 2 == 0,
        is_pow2(n / 2),
        n / 2 + n / 2 == n,
{
}

/// A power of two that is a multiple of eight is eight times a power of two.
pub proof fn lemma_pow2_eighth(n: int)
    requires
        is_pow2(n),
        n % 8 == 0,
    ensures
        is_pow2(n / 8),
{
    lemma_pow2_half(n);
    lemma_pow2_half(n / 2);
    lemma_pow2_half(n / 4);
    assert(n / 2 / 2 == n / 4);
    assert(n / 4 / 2 == n / 8);
}

/// Whether `n` is a power of two.
pub fn is_power_of_two(n: usize) -> (r: bool)
    ensures
        r == is_pow2(n as int),
{
    if n == 0 {
        return false;
    }
    let mut m: usize = n;
    while m % 2 == 0
        invariant
            m >= 1,
            is_pow2(m as int) == is_pow2(n as int),
        decreases m,
    {
        m = m / 2;
    }
    m == 1
}

} // verus!
