//! Buffer lengths: recognising powers of two and rounding up to one.
use vstd::prelude::*;
use crate::bits::{pow_two, lemma_pow_two_pos, lemma_pow_two_mono, lemma_pow_two_add};

verus! {

/// `n` is `2^k` for some `k`.
pub open spec fn is_pow_two(n: nat) -> bool {
    exists|k: nat| pow_two(k) == n
}

/// No power of two past `2^63` fits in a `usize`.
proof fn lemma_pow_two_fits(k: nat)
    requires
        pow_two(k) <= usize::MAX,
    ensures
        k < 64,
{
    reveal_with_fuel(pow_two, 9);
    assert(pow_two(8) == 256);
    lemma_pow_two_add(8, 8);
    assert(pow_two(16) == 0x10000);
    lemma_pow_two_add(16, 16);
    assert(pow_two(32) == 0x100000000);
    lemma_pow_two_add(32, 32);
    assert(pow_two(64) == 0x10000000000000000nat);
    if k >= 64 {
        lemma_pow_two_mono(64, k);
    }
}

/// The exponent `k` with `n == 2^k`, or `None` where `n` is no power of two
/// (zero included).
pub fn exact_log2(n: usize) -> (r: Option<u32>)
    ensures
        match r {
            Some(k) => n == pow_two(k as nat),
            None => !is_pow_two(n as nat),
        },
{
    let mut p: usize = 1;
    let mut k: u32 = 0;
    while p < n
        invariant
            p == pow_two(k as nat),
            p >= 1,
            k < 64,
            k == 0 || pow_two((k - 1) as nat) < n,
        decreases 64 - k,
    {
        if p > usize::MAX / 2 {
            // `n` lies strictly between two consecutive powers of two
            proof {
                assert forall|j: nat| pow_two(j) != n by {
                    if j <= k {
                        lemma_pow_two_mono(j, k as nat);
                    } else {
                        lemma_pow_two_mono((k + 1) as nat, j);
                    }
                }
            }
            return None;
        }
        proof {
            lemma_pow_two_pos(k as nat);
            lemma_pow_two_fits((k + 1) as nat);
        }
        p = p * 2;
        k = k + 1;
    }
    if p == n {
        Some(k)
    } else {
        proof {
            assert forall|j: nat| pow_two(j) != n by {
                if j < k {
                    lemma_pow_two_mono(j, (k - 1) as nat);
                } else {
                    lemma_pow_two_mono(k as nat, j);
                }
            }
        }
        None
    }
}

/// The smallest power of two that is at least `t`, with its exponent.
pub fn aligned_size(t: usize) -> (r: (usize, u32))
    requires
        t <= usize::MAX / 2 + 1,
    ensures
        r.0 == pow_two(r.1 as nat),
        r.0 >= t,
        r.1 == 0 || pow_two((r.1 - 1) as nat) < t,
{
    let mut p: usize = 1;
    let mut k: u32 = 0;
    while p < t
        invariant
            p == pow_two(k as nat),
            t <= usize::MAX / 2 + 1,
            p >= 1,
            k < 64,
            k == 0 || pow_two((k - 1) as nat) < t,
        decreases 64 - k,
    {
        proof {
            lemma_pow_two_pos(k as nat);
            lemma_pow_two_fits((k + 1) as nat);
        }
        p = p * 2;
        k = k + 1;
    }
    (p, k)
}

} // verus!
