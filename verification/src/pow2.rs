//! Powers of two: the sizes a leaf level may have.
use vstd::arithmetic::power2::{lemma_pow2_unfold, pow2};
use vstd::prelude::*;

verus! {

/// `n` is 1, 2, 4, 8, ...
pub open spec fn is_pow2(n: nat) -> bool
    decreases n,
{
    n == 1 || (n >= 2 && n % 2 == 0 && is_pow2(n / 2))
}

/// The number of times `n` has to be halved, rounding up, to reach 1.
/// For a power of two this is its binary logarithm.
pub open spec fn depth(n: nat) -> nat
    decreases n,
{
    if n <= 1 {
        0
    } else {
        1 + depth((n + 1) / 2)
    }
}

/// The smallest power of two that is at least `n`
/// (see `lemma_next_pow2_is_least`).
pub open spec fn next_pow2(n: nat) -> nat
    decreases n,
{
    if n <= 1 {
        1
    } else {
        2 * next_pow2((n + 1) / 2)
    }
}

/// `next_pow2(n)` is a power of two and is at least `n`.
pub proof fn lemma_next_pow2_bounds(n: nat)
    ensures
        is_pow2(next_pow2(n)),
        n <= next_pow2(n),
        n >= 1 ==> next_pow2(n) < 2 * n,
    decreases n,
{
    if n > 1 {
        lemma_next_pow2_bounds((n + 1) / 2);
    }
}

/// No power of two lies between `n` and `next_pow2(n)`.
pub proof fn lemma_next_pow2_is_least(n: nat, p: nat)
    requires
        is_pow2(p),
        n <= p,
    ensures
        next_pow2(n) <= p,
    decreases n,
{
    if n > 1 {
        lemma_next_pow2_is_least((n + 1) / 2, p / 2);
    }
}

/// A power of two is its own next power of two.
pub proof fn lemma_next_pow2_of_pow2(n: nat)
    requires
        is_pow2(n),
    ensures
        next_pow2(n) == n,
    decreases n,
{
    if n > 1 {
        lemma_next_pow2_of_pow2(n / 2);
    }
}

/// `next_pow2(n)` is two to the power `depth(n)`.
pub proof fn lemma_next_pow2_is_pow2_of_depth(n: nat)
    ensures
        next_pow2(n) == pow2(depth(n)),
    decreases n,
{
    if n > 1 {
        lemma_pow2_unfold(depth(n));
        lemma_next_pow2_is_pow2_of_depth((n + 1) / 2);
    } else {
        assert(pow2(0) == 1) by {
            vstd::arithmetic::power2::lemma2_to64();
        }
    }
}

/// Clearing the lowest set bit of `n` leaves nothing exactly when `n`, at
/// least 2, is even and the same holds of its half.
proof fn lemma_lowest_bit_step(n: usize)
    requires
        n >= 2,
    ensures
        (n & ((n - 1) as usize)) == 0 <==> (n % 2 == 0 && ((n / 2) & ((n / 2 - 1) as usize)) == 0),
{
    assert(n >= 2 ==> ((n & ((n - 1) as usize)) == 0 <==> (n % 2 == 0 && ((n / 2) & ((n / 2
        - 1) as usize)) == 0))) by (bit_vector);
}

/// The bit test `n & (n - 1) == 0` recognises the powers of two.
proof fn lemma_bit_test_is_pow2(n: usize)
    requires
        n >= 1,
    ensures
        (n & ((n - 1) as usize)) == 0 <==> is_pow2(n as nat),
    decreases n,
{
    if n >= 2 {
        lemma_lowest_bit_step(n);
        lemma_bit_test_is_pow2(n / 2);
    } else {
        assert(1usize & 0usize == 0) by (bit_vector);
    }
}

/// Whether `n` is a power of two.
pub fn is_power_of_two(n: usize) -> (yes: bool)
    ensures
        yes == is_pow2(n as nat),
{
    if n == 0 {
        false
    } else {
        proof {
            lemma_bit_test_is_pow2(n);
        }
        (n & (n - 1)) == 0
    }
}

} // verus!
