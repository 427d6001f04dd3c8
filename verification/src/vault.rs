//! Balance-scale weighing: how many weighings single out one odd coin.

use vstd::prelude::*;

verus! {

/// `3` raised to the power `k`.
pub open spec fn pow3(k: nat) -> nat
    decreases k,
{
    if k == 0 { 1 } else { 3 * pow3((k - 1) as nat) }
}

/// The smallest number of weighings `k` with `3^k >= 2n + 3`.
pub fn min_weighings(n: u64) -> (k: u32)
    requires
        2 * n + 3 <= pow3(40),
    ensures
        pow3(k as nat) >= 2 * n + 3,
        k == 0 || pow3((k - 1) as nat) < 2 * n + 3,
{
    proof { lemma_pow3_40(); }
    let target: u64 = 2 * n + 3;
    let mut k: u32 = 0;
    let mut pow: u64 = 1;
    while pow < target
        invariant
            target == 2 * n + 3,
            target <= pow3(40),
            pow == pow3(k as nat),
            k <= 40,
            k == 0 || pow3((k - 1) as nat) < target,
        decreases 40 - k,
    {
        proof {
            lemma_pow3_monotone(k as nat, 40);
            if k < 40 {
                lemma_pow3_monotone((k + 1) as nat, 40);
            }
            lemma_pow3_40();
        }
        pow = pow * 3;
        k = k + 1;
    }
    k
}

/// The largest power of three that fits in a `u64`.
pub proof fn lemma_pow3_40()
    ensures
        pow3(40) == 12157665459056928801,
{
    reveal_with_fuel(pow3, 41);
}

/// Powers of three grow with the exponent.
pub proof fn lemma_pow3_monotone(i: nat, j: nat)
    requires
        i <= j,
    ensures
        pow3(i) <= pow3(j),
    decreases j - i,
{
    if i < j {
        lemma_pow3_monotone(i, (j - 1) as nat);
    }
}

} // verus!
