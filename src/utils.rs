//! Power-of-two helpers.
use vstd::arithmetic::power2::{lemma2_to64, lemma_pow2_pos, lemma_pow2_strictly_increases, lemma_pow2_unfold, pow2};
use vstd::prelude::*;

verus! {

/// `v` is `2^k` for some `k`.
pub open spec fn is_pow2_value(v: int) -> bool {
    exists|k: nat| pow2(k) == v
}

/// Between two consecutive powers of two there is none.
pub proof fn lemma_no_pow2_between(k: nat, v: int)
    requires
        pow2(k) < v < 2 * pow2(k),
    ensures
        !is_pow2_value(v),
{
    broadcast use lemma_pow2_unfold, lemma_pow2_strictly_increases;

    if exists|j: nat| pow2(j) == v {
        let j = choose|j: nat| pow2(j) == v;
        if j <= k {
            if j < k {
                lemma_pow2_strictly_increases(j, k);
            }
        } else {
            lemma_pow2_unfold(k + 1);
            if j > k + 1 {
                lemma_pow2_strictly_increases(k + 1, j);
            }
        }
    }
}

/// The smallest `i` with `2^i >= value` (0 for 0 and 1).
pub fn log2ceil(value: usize) -> (r: usize)
    requires
        value <= usize::MAX / 2 + 1,
    ensures
        pow2(r as nat) >= value,
        r > 0 ==> pow2((r - 1) as nat) < value,
{
    broadcast use lemma_pow2_unfold;

    let mut i: usize = 0;
    let mut cmp: usize = 1;
    proof {
        lemma2_to64();
    }
    while cmp < value
        invariant
            i < cmp,
            cmp == pow2(i as nat),
            i > 0 ==> pow2((i - 1) as nat) < value,
            value <= usize::MAX / 2 + 1,
        decreases usize::MAX - cmp,
    {
        proof {
            lemma_pow2_unfold((i + 1) as nat);
        }
        i += 1;
        cmp = cmp * 2;
    }
    i
}

/// Whether `value` is a power of two; zero is not.
pub fn is_power_of_two(value: usize) -> (r: bool)
    ensures
        r == is_pow2_value(value as int),
{
    broadcast use lemma_pow2_unfold, lemma_pow2_pos;

    if value == 0 {
        assert forall|k: nat| pow2(k) != 0 by {
            lemma_pow2_pos(k);
        }
        return false;
    }
    let mut p: usize = 1;
    let ghost mut k: nat = 0;
    proof {
        lemma2_to64();
    }
    while p < value && p <= usize::MAX / 2
        invariant
            p == pow2(k),
            k == 0 || pow2((k - 1) as nat) < value,
            value > 0,
            p > 0,
        decreases usize::MAX - p,
    {
        proof {
            lemma_pow2_unfold(k + 1);
            k = k + 1;
        }
        p = p * 2;
    }
    if p == value {
        true
    } else {
        if p > value {
            proof {
                lemma_no_pow2_between((k - 1) as nat, value as int);
            }
        } else {
            proof {
                lemma_pow2_unfold(k + 1);
                lemma_no_pow2_between(k, value as int);
            }
        }
        false
    }
}

} // verus!
