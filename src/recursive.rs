//! A sorter for any power-of-two length that derives the odd-even merge
//! network by recursion, with no table.
use crate::exchange::{compare_exchange, cx, lemma_cx_multiset, sorted};
use crate::utils::{is_pow2_value, is_power_of_two};
use crate::SortError;
use vstd::arithmetic::power2::{lemma2_to64, lemma_pow2_pos, lemma_pow2_strictly_increases, lemma_pow2_unfold, pow2};
use vstd::prelude::*;

verus! {

/// The closing pass of a merge: compare-exchange `(k, k + r)` for
/// `k = i, i + 2r, ...` while `k + r < end`.
pub open spec fn pass_spec(s: Seq<u64>, i: int, end: int, r: int) -> Seq<u64>
    decreases end - i + 2 * r,
{
    if r > 0 && i + r < end {
        pass_spec(cx(s, i, i + r), i + 2 * r, end, r)
    } else {
        s
    }
}

/// Odd-even merge of the items at `lo, lo + r, ...` below `lo + n`.
pub open spec fn merge_spec(s: Seq<u64>, lo: int, n: int, r: int) -> Seq<u64>
    decreases n - r,
{
    if r <= 0 {
        s
    } else if 2 * r >= n {
        cx(s, lo, lo + r)
    } else {
        let s1 = merge_spec(s, lo, n, 2 * r);
        let s2 = merge_spec(s1, lo + r, n, 2 * r);
        pass_spec(s2, lo + r, lo + n, r)
    }
}

/// Odd-even mergesort of `s[lo .. lo + n)`.
pub open spec fn sort_spec(s: Seq<u64>, lo: int, n: int) -> Seq<u64>
    decreases n,
{
    if n <= 1 {
        s
    } else {
        let m = n / 2;
        merge_spec(sort_spec(sort_spec(s, lo, m), lo + m, m), lo, n, 1)
    }
}

proof fn lemma_pass_facts(s: Seq<u64>, i: int, end: int, r: int)
    ensures
        pass_spec(s, i, end, r).to_multiset() == s.to_multiset(),
        pass_spec(s, i, end, r).len() == s.len(),
        sorted(s) ==> pass_spec(s, i, end, r) == s,
    decreases end - i + 2 * r,
{
    if r > 0 && i + r < end {
        lemma_cx_multiset(s, i, i + r);
        lemma_pass_facts(cx(s, i, i + r), i + 2 * r, end, r);
    }
}

proof fn lemma_merge_facts(s: Seq<u64>, lo: int, n: int, r: int)
    ensures
        merge_spec(s, lo, n, r).to_multiset() == s.to_multiset(),
        merge_spec(s, lo, n, r).len() == s.len(),
        sorted(s) ==> merge_spec(s, lo, n, r) == s,
    decreases n - r,
{
    if r <= 0 {
    } else if 2 * r >= n {
        lemma_cx_multiset(s, lo, lo + r);
    } else {
        let s1 = merge_spec(s, lo, n, 2 * r);
        let s2 = merge_spec(s1, lo + r, n, 2 * r);
        lemma_merge_facts(s, lo, n, 2 * r);
        lemma_merge_facts(s1, lo + r, n, 2 * r);
        lemma_pass_facts(s2, lo + r, lo + n, r);
    }
}

proof fn lemma_sort_facts(s: Seq<u64>, lo: int, n: int)
    ensures
        sort_spec(s, lo, n).to_multiset() == s.to_multiset(),
        sort_spec(s, lo, n).len() == s.len(),
        sorted(s) ==> sort_spec(s, lo, n) == s,
    decreases n,
{
    if n > 1 {
        let m = n / 2;
        let s1 = sort_spec(s, lo, m);
        let s2 = sort_spec(s1, lo + m, m);
        lemma_sort_facts(s, lo, m);
        lemma_sort_facts(s1, lo + m, m);
        lemma_merge_facts(s2, lo, n, 1);
    }
}

/// The recursive sorter only reorders: what comes out holds each item as
/// often as what went in.
pub proof fn lemma_sort_permutes(s: Seq<u64>)
    ensures
        sort_spec(s, 0, s.len() as int).to_multiset() == s.to_multiset(),
        sort_spec(s, 0, s.len() as int).len() == s.len(),
{
    lemma_sort_facts(s, 0, s.len() as int);
}

/// The recursive sorter leaves an ascending buffer as it is.
pub proof fn lemma_sort_idempotent(s: Seq<u64>)
    requires
        sorted(s),
    ensures
        sort_spec(s, 0, s.len() as int) == s,
{
    lemma_sort_facts(s, 0, s.len() as int);
}

/// Sorter for buffers of any power-of-two length.
#[derive(Clone, Copy, Debug)]
pub struct SortingNetwork;

impl SortingNetwork {
    pub fn new() -> (r: Self) {
        SortingNetwork
    }

    /// Sorts `v` in place; a length that is not a power of two is refused and
    /// leaves `v` as it was. (No `Vec<u64>` that fits in memory comes near
    /// the bound on its length.)
    pub fn sort(&self, v: &mut Vec<u64>) -> (r: Result<(), SortError>)
        requires
            old(v).len() <= usize::MAX / 4,
        ensures
            r is Ok <==> is_pow2_value(old(v).len() as int),
            r is Ok ==> final(v)@ == sort_spec(old(v)@, 0, old(v).len() as int),
            r is Ok ==> sorted(final(v)@) && final(v)@.to_multiset() == old(v)@.to_multiset(),
            r is Err ==> r == Err::<(), SortError>(SortError::InvalidLength) && final(v)@ == old(v)@,
    {
        let len = v.len();
        if !is_power_of_two(len) {
            return Err(SortError::InvalidLength);
        }
        let ghost a = choose|k: nat| pow2(k) == len;
        self.sort_internal(v, 0, len, Ghost(a));
        proof {
            lemma_sort_permutes(old(v)@);
            crate::sortedness::lemma_sort_sorts(old(v)@);
        }
        Ok(())
    }

    fn sort_internal(&self, v: &mut Vec<u64>, i: usize, n: usize, Ghost(a): Ghost<nat>)
        requires
            n == pow2(a),
            i + n <= old(v).len(),
            old(v).len() <= usize::MAX / 4,
        ensures
            final(v)@ == sort_spec(old(v)@, i as int, n as int),
            final(v).len() == old(v).len(),
        decreases a,
    {
        if n <= 1 {
            return;
        }
        proof {
            lemma2_to64();
            if a > 0 {
                lemma_pow2_unfold(a);
            }
        }
        let m = n / 2;
        self.sort_internal(v, i, m, Ghost((a - 1) as nat));
        self.sort_internal(v, i + m, m, Ghost((a - 1) as nat));
        proof {
            lemma2_to64();
        }
        self.merge(v, i, n, 1, Ghost(a), Ghost(0));
    }

    fn merge(
        &self,
        v: &mut Vec<u64>,
        i: usize,
        n: usize,
        interval: usize,
        Ghost(a): Ghost<nat>,
        Ghost(b): Ghost<nat>,
    )
        requires
            n == pow2(a),
            interval == pow2(b),
            b < a,
            i + n < old(v).len() + interval,
            old(v).len() <= usize::MAX / 4,
        ensures
            final(v)@ == merge_spec(old(v)@, i as int, n as int, interval as int),
            final(v).len() == old(v).len(),
        decreases a - b,
    {
        proof {
            lemma_pow2_unfold(b + 1);
            lemma_pow2_pos(b);
            if b + 1 < a {
                lemma_pow2_strictly_increases(b + 1, a);
            }
        }
        let m = interval * 2;
        if m >= n {
            compare_exchange(v, i, i + interval);
            return;
        }
        let ghost s0 = v@;
        self.merge(v, i, n, m, Ghost(a), Ghost(b + 1));
        self.merge(v, i + interval, n, m, Ghost(a), Ghost(b + 1));
        let ghost s2 = v@;
        let ghost q = pow2((a - b - 1) as nat);
        proof {
            vstd::arithmetic::power2::lemma_pow2_adds(b + 1, (a - b - 1) as nat);
            assert((b + 1 + (a - b - 1) as nat) as nat == a);
        }
        let mut k = i + interval;
        let ghost mut c: int = 0;
        while k + interval < i + n
            invariant
                k == i + interval + m * c,
                c >= 0,
                n == m * q,
                m == 2 * interval,
                interval > 0,
                i + n < v.len() + interval,
                v.len() == s2.len(),
                v.len() <= usize::MAX / 4,
                m < n,
                k <= i + n + interval,
                pass_spec(v@, k as int, (i + n) as int, interval as int)
                    == pass_spec(s2, (i + interval) as int, (i + n) as int, interval as int),
            decreases i + n - k,
        {
            assert(m * (c + 1) < m * q) by (nonlinear_arith)
                requires
                    k == i + interval + m * c,
                    m == 2 * interval,
                    k + interval < i + n,
                    n == m * q,
            ;
            assert(c + 1 <= q - 1) by (nonlinear_arith)
                requires
                    m * (c + 1) < m * q,
                    m > 0,
            ;
            assert(m * (c + 1) <= m * (q - 1)) by (nonlinear_arith)
                requires
                    c + 1 <= q - 1,
                    m > 0,
            ;
            assert(k + interval <= i + n - m) by (nonlinear_arith)
                requires
                    k == i + interval + m * c,
                    m == 2 * interval,
                    m * (c + 1) <= m * (q - 1),
                    n == m * q,
            ;
            compare_exchange(v, k, k + interval);
            k += m;
            proof {
                assert(m * (c + 1) == m * c + m) by (nonlinear_arith);
                c = c + 1;
            }
        }
        assert(v@ == merge_spec(s0, i as int, n as int, interval as int));
    }
}

} // verus!
