//! Integer logarithms.

use vstd::arithmetic::power2::*;
use vstd::prelude::*;

verus! {

/// Whether `2^m` is the least power of two that is not below `x`.
pub open spec fn is_log_2_ceil(x: nat, m: nat) -> bool {
    &&& x <= pow2(m)
    &&& m > 0 ==> pow2((m - 1) as nat) < x
}

/// The binary logarithm of `x`, rounded up.
pub open spec fn log_2_ceil_spec(x: nat) -> nat {
    choose|m: nat| is_log_2_ceil(x, m)
}

/// There is at most one rounded logarithm.
pub proof fn lemma_log_2_ceil_unique(x: nat, m: nat)
    requires
        is_log_2_ceil(x, m),
    ensures
        log_2_ceil_spec(x) == m,
{
    let n = log_2_ceil_spec(x);
    assert(is_log_2_ceil(x, n));
    if m < n {
        lemma_pow2_monotone(m, (n - 1) as nat);
    } else if n < m {
        lemma_pow2_monotone(n, (m - 1) as nat);
    }
}

/// There is a rounded logarithm, and it does not exceed that of a power of two
/// above `x`.
pub proof fn lemma_log_2_ceil_exists(x: nat, bound: nat)
    requires
        x <= pow2(bound),
    ensures
        is_log_2_ceil(x, log_2_ceil_spec(x)),
        log_2_ceil_spec(x) <= bound,
    decreases bound,
{
    if bound == 0 || pow2((bound - 1) as nat) < x {
        lemma_log_2_ceil_unique(x, bound);
    } else {
        lemma_log_2_ceil_exists(x, (bound - 1) as nat);
    }
}

pub proof fn lemma_pow2_monotone(m: nat, n: nat)
    requires
        m <= n,
    ensures
        0 < pow2(m) <= pow2(n),
{
    lemma_pow2_pos(m);
    if m < n {
        lemma_pow2_strictly_increases(m, n);
    }
}

/// The binary logarithm of `x`, rounded up.
pub fn log_2_ceil(x: u64) -> (m: u64)
    ensures
        m == log_2_ceil_spec(x as nat),
        m <= 64,
        x <= pow2(m as nat),
        m > 0 ==> pow2((m - 1) as nat) < x,
{
    let mut m: u64 = 0;
    let mut power: u128 = 1;
    proof {
        lemma2_to64();
        lemma2_to64_rest();
    }
    while power < x as u128
        invariant
            m <= 64,
            pow2(64) == 0x1_0000_0000_0000_0000,
            power == pow2(m as nat),
            m > 0 ==> pow2((m - 1) as nat) < x,
        decreases 64 - m,
    {
        proof {
            if m == 64 {
                assert(false);
            }
            lemma_pow2_unfold((m + 1) as nat);
            lemma_pow2_monotone((m + 1) as nat, 64);
        }
        power = 2 * power;
        m = m + 1;
    }
    proof {
        lemma_log_2_ceil_unique(x as nat, m as nat);
    }
    m
}

} // verus!
