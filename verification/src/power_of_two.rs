//! Powers of two: recognising them, rounding up to them, and taking
//! their logarithm.

use vstd::prelude::*;

verus! {

/// `2^k`.
pub open spec fn exp2(k: nat) -> nat
    decreases k,
{
    if k == 0 {
        1
    } else {
        2 * exp2((k - 1) as nat)
    }
}

/// `n` is `2^k` for some `k`.
pub open spec fn is_pow2(n: int) -> bool {
    exists|k: nat| exp2(k) == n
}

/// `p` is the least power of two that is at least `n`.
pub open spec fn is_least_pow2_at_least(p: nat, n: nat) -> bool {
    &&& is_pow2(p as int)
    &&& n <= p
    &&& (p == 1 || p < 2 * n)
}

/// The least power of two that is at least `n` (`1` for `0` and `1`).
pub open spec fn next_pow2(n: nat) -> nat {
    choose|p: nat| is_least_pow2_at_least(p, n)
}

/// `floor(log2(n))` for positive `n`.
pub open spec fn floor_log2(n: nat) -> nat
    decreases n,
{
    if n <= 1 {
        0
    } else {
        1 + floor_log2(n / 2)
    }
}

pub proof fn lemma_exp2_positive(k: nat)
    ensures
        exp2(k) >= 1,
    decreases k,
{
    if k > 0 {
        lemma_exp2_positive((k - 1) as nat);
    }
}

/// `2^i < 2^j` whenever `i < j`; more precisely `2 * 2^i <= 2^j`.
pub proof fn lemma_exp2_strictly_increasing(i: nat, j: nat)
    requires
        i < j,
    ensures
        2 * exp2(i) <= exp2(j),
        exp2(i) < exp2(j),
    decreases j,
{
    lemma_exp2_positive(i);
    if j > i + 1 {
        lemma_exp2_strictly_increasing(i, (j - 1) as nat);
        lemma_exp2_positive((j - 1) as nat);
    }
}

/// The logarithm of `2^k` is `k`.
pub proof fn lemma_floor_log2_exp2(k: nat)
    ensures
        floor_log2(exp2(k)) == k,
    decreases k,
{
    if k > 0 {
        lemma_floor_log2_exp2((k - 1) as nat);
        lemma_exp2_positive((k - 1) as nat);
        assert(exp2(k) / 2 == exp2((k - 1) as nat));
    }
}

/// There is exactly one least power of two at or above `n`.
pub proof fn lemma_next_pow2_unique(p: nat, n: nat)
    requires
        is_least_pow2_at_least(p, n),
    ensures
        next_pow2(n) == p,
{
    let q = next_pow2(n);
    assert(is_least_pow2_at_least(q, n));
    let i = choose|i: nat| exp2(i) == p;
    let j = choose|j: nat| exp2(j) == q;
    if i < j {
        lemma_exp2_strictly_increasing(i, j);
        lemma_exp2_positive(i);
    } else if j < i {
        lemma_exp2_strictly_increasing(j, i);
        lemma_exp2_positive(j);
    }
}

/// A power of two is `1` or even.
pub proof fn lemma_pow2_even_or_one(p: nat)
    requires
        is_pow2(p as int),
    ensures
        p == 1 || p % 2 == 0,
{
    let k = choose|k: nat| exp2(k) == p;
    if k > 0 {
        assert(exp2(k) == 2 * exp2((k - 1) as nat));
    }
}

/// The least power of two at or above `n` exists.
pub proof fn lemma_next_pow2_exists(n: nat)
    ensures
        is_least_pow2_at_least(next_pow2(n), n),
    decreases n,
{
    if n <= 1 {
        assert(exp2(0) == 1);
        assert(is_least_pow2_at_least(1, n));
    } else {
        let m = ((n + 1) / 2) as nat;
        lemma_next_pow2_exists(m);
        let q = next_pow2(m);
        let k = choose|k: nat| exp2(k) == q;
        assert(exp2(k + 1) == 2 * q);
        assert(is_least_pow2_at_least(2 * q, n));
    }
}

/// Whether `n` is a power of two (`0` is not).
pub fn is_power_of_two(n: usize) -> (r: bool)
    ensures
        r == is_pow2(n as int),
{
    let mut p: usize = 1;
    let ghost mut j: nat = 0;
    while p < n && p <= usize::MAX / 2
        invariant
            p == exp2(j),
            p >= 1,
            forall|i: nat| i < j ==> #[trigger] exp2(i) < n,
        decreases usize::MAX - p,
    {
        proof {
            assert forall|i: nat| i < j + 1 implies #[trigger] exp2(i) < n by {
                if i < j {
                } else {
                    assert(i == j);
                }
            }
        }
        p = p * 2;
        proof {
            j = j + 1;
        }
    }
    proof {
        if is_pow2(n as int) {
            let k = choose|k: nat| exp2(k) == n;
            if k < j {
                assert(exp2(k) < n);
            } else if k > j {
                lemma_exp2_strictly_increasing(j, k);
            }
        }
    }
    p == n
}

/// The least power of two at or above `n`, as `usize::next_power_of_two`
/// computes it where it does not overflow.
pub fn next_power_of_two(n: usize) -> (r: usize)
    requires
        n <= usize::MAX / 2 + 1,
    ensures
        r == next_pow2(n as nat),
        is_least_pow2_at_least(r as nat, n as nat),
{
    let mut p: usize = 1;
    let ghost mut j: nat = 0;
    while p < n
        invariant
            p == exp2(j),
            p >= 1,
            n <= usize::MAX / 2 + 1,
            p == 1 || p < 2 * n,
        decreases 2 * n - p,
    {
        p = p * 2;
        proof {
            j = j + 1;
        }
    }
    proof {
        assert(is_pow2(p as int));
        lemma_next_pow2_unique(p as nat, n as nat);
    }
    p
}

} // verus!
