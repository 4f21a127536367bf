//! Powers of two.

use vstd::prelude::*;

verus! {

/// Whether `n` is a power of two: 1, 2, 4, 8, ...
pub open spec fn is_pow2(n: nat) -> bool
    decreases n,
{
    n == 1 || (n > 1 && n % 2 == 0 && is_pow2(n / 2))
}

/// The smallest power of two that is at least `n` (so 1 for 0 and for 1).
pub open spec fn next_pow2(n: nat) -> nat
    decreases n,
{
    if n <= 1 {
        1
    } else {
        2 * next_pow2((n + 1) / 2)
    }
}

/// `next_pow2(n)` is a power of two and is not below `n`.
pub proof fn lemma_next_pow2_bounds(n: nat)
    ensures
        is_pow2(next_pow2(n)),
        next_pow2(n) >= n,
        next_pow2(n) >= 1,
    decreases n,
{
    if n > 1 {
        lemma_next_pow2_bounds((n + 1) / 2);
    }
}

/// No power of two lies between `n` and `next_pow2(n)`.
pub proof fn lemma_next_pow2_least(n: nat, q: nat)
    requires
        is_pow2(q),
        q >= n,
    ensures
        next_pow2(n) <= q,
    decreases n,
{
    if n > 1 {
        lemma_next_pow2_least((n + 1) / 2, q / 2);
    }
}

/// A power of two is its own next power of two.
pub proof fn lemma_next_pow2_fixed(n: nat)
    requires
        is_pow2(n),
    ensures
        next_pow2(n) == n,
    decreases n,
{
    if n > 1 {
        lemma_next_pow2_fixed(n / 2);
    }
}

/// Two different powers of two differ by a factor of at least two.
pub proof fn lemma_pow2_gap(p: nat, q: nat)
    requires
        is_pow2(p),
        is_pow2(q),
        p < q,
    ensures
        2 * p <= q,
    decreases q,
{
    if p > 1 {
        lemma_pow2_gap(p / 2, q / 2);
    }
}

/// Whether `n` is a power of two.
pub fn is_power_of_two(n: usize) -> (b: bool)
    ensures
        b == is_pow2(n as nat),
{
    let mut m: usize = n;
    while m > 1 && m % 2 == 0
        invariant
            is_pow2(m as nat) == is_pow2(n as nat),
        decreases m,
    {
        m = m / 2;
    }
    m == 1
}

/// The smallest power of two that is at least `n`.
pub fn next_power_of_two(n: usize) -> (p: usize)
    requires
        next_pow2(n as nat) <= usize::MAX,
    ensures
        p == next_pow2(n as nat),
{
    let mut p: usize = 1;
    while p < n
        invariant
            p >= 1,
            is_pow2(p as nat),
            p == 1 || p / 2 < n,
            next_pow2(n as nat) <= usize::MAX,
        decreases next_pow2(n as nat) - p,
    {
        proof {
            lemma_next_pow2_bounds(n as nat);
            lemma_pow2_gap(p as nat, next_pow2(n as nat));
        }
        p = 2 * p;
    }
    proof {
        lemma_next_pow2_bounds(n as nat);
        lemma_next_pow2_least(n as nat, p as nat);
        if next_pow2(n as nat) < p {
            lemma_pow2_gap(next_pow2(n as nat), p as nat);
        }
    }
    p
}

} // verus!
