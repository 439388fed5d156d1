//! Why the recursive sorter sorts: for every threshold `t`, the items below
//! `t` end as a prefix of each merged run.
use crate::exchange::{cx, sorted};
use crate::recursive::{merge_spec, pass_spec, sort_spec};
use crate::utils::is_pow2_value;
use vstd::arithmetic::power2::{lemma2_to64, lemma_pow2_pos, lemma_pow2_unfold, pow2};
use vstd::prelude::*;

verus! {

/// Position `k` along the stride `r` that starts at `lo`.
pub open spec fn at(lo: int, r: int, k: int) -> int {
    lo + r * k
}

/// `x` is one of the `len` positions along the stride `r` from `lo`.
pub open spec fn on_stride(x: int, lo: int, r: int, len: int) -> bool {
    exists|k: int| 0 <= k < len && x == #[trigger] at(lo, r, k)
}

/// Along the stride, of the positions `from .. from + len`, exactly the first
/// `c` hold an item below `t`.
pub open spec fn prefix_below(s: Seq<u64>, lo: int, r: int, from: int, len: int, t: int, c: int) -> bool {
    forall|k: int| from <= k < from + len ==> (#[trigger] s[at(lo, r, k)] < t <==> k - from < c)
}

/// The smaller of the two items at `i` and `j`.
pub open spec fn low(s: Seq<u64>, i: int, j: int) -> u64 {
    if s[i] > s[j] { s[j] } else { s[i] }
}

/// The larger of the two items at `i` and `j`.
pub open spec fn high(s: Seq<u64>, i: int, j: int) -> u64 {
    if s[i] > s[j] { s[i] } else { s[j] }
}

proof fn lemma_at_cmp(lo: int, r: int, k1: int, k2: int)
    requires
        r > 0,
    ensures
        (k1 < k2) == (at(lo, r, k1) < at(lo, r, k2)),
        (k1 == k2) == (at(lo, r, k1) == at(lo, r, k2)),
{
    if k1 < k2 {
        assert(r * k1 < r * k2) by (nonlinear_arith)
            requires
                r > 0,
                k1 < k2,
        ;
    } else if k1 > k2 {
        assert(r * k1 > r * k2) by (nonlinear_arith)
            requires
                r > 0,
                k1 > k2,
        ;
    }
}

pub(crate) proof fn lemma_at_shift(lo: int, r: int, k: int)
    ensures
        at(lo, r, k) + r == at(lo, r, k + 1),
        at(lo, 2 * r, k) == at(lo, r, 2 * k),
        at(lo + r, 2 * r, k) == at(lo, r, 2 * k + 1),
{
    assert(r * k + r == r * (k + 1)) by (nonlinear_arith);
    assert((2 * r) * k == r * (2 * k)) by (nonlinear_arith);
    assert(r + (2 * r) * k == r * (2 * k + 1)) by (nonlinear_arith);
}

/// The closing pass of a merge, from pair `c` on: each compared pair ends as
/// (smaller, larger); every other position keeps its item.
proof fn lemma_pass(s: Seq<u64>, lo: int, r: int, len: int, c: int)
    requires
        r > 0,
        lo >= 0,
        c >= 0,
        len >= 2,
        len % 2 == 0,
        at(lo, r, len - 1) < s.len(),
    ensures
        ({
            let p = pass_spec(s, at(lo, r, 2 * c + 1), at(lo, r, len), r);
            &&& p.len() == s.len()
            &&& forall|x: int| 0 <= x < s.len() && !on_stride(x, lo, r, len) ==> p[x] == s[x]
            &&& forall|k: int|
                0 <= k < len && (k < 2 * c + 1 || k == len - 1) ==> p[#[trigger] at(lo, r, k)] == s[at(lo, r, k)]
            &&& forall|d: int|
                c <= d && 2 * d + 2 < len ==> {
                    &&& p[#[trigger] at(lo, r, 2 * d + 1)] == low(s, at(lo, r, 2 * d + 1), at(lo, r, 2 * d + 2))
                    &&& p[at(lo, r, 2 * d + 2)] == high(s, at(lo, r, 2 * d + 1), at(lo, r, 2 * d + 2))
                }
        }),
    decreases len - 2 * c,
{
    let i = at(lo, r, 2 * c + 1);
    let end = at(lo, r, len);
    let j = at(lo, r, 2 * c + 2);
    lemma_at_shift(lo, r, 2 * c + 1);
    lemma_at_shift(lo, r, 2 * c + 2);
    lemma_at_cmp(lo, r, 2 * c + 2, len);
    if i + r < end {
        assert(2 * c + 2 < len);
        lemma_at_cmp(lo, r, 2 * c + 2, len - 1);
        lemma_at_cmp(lo, r, 0, 2 * c + 1);
        assert(lo + r * 0 == lo) by (nonlinear_arith);
        let s1 = cx(s, i, j);
        assert(at(lo, r, 2 * (c + 1) + 1) == i + 2 * r);
        lemma_pass(s1, lo, r, len, c + 1);
        assert(pass_spec(s, i, end, r) == pass_spec(s1, i + 2 * r, end, r));
        let p = pass_spec(s, i, end, r);
        assert(j < s.len());
        assert forall|x: int| 0 <= x < s.len() && !on_stride(x, lo, r, len) implies p[x] == s[x] by {
            if x == i {
                assert(on_stride(x, lo, r, len)) by {
                    assert(0 <= 2 * c + 1 < len && x == at(lo, r, 2 * c + 1));
                }
            }
            if x == j {
                assert(on_stride(x, lo, r, len)) by {
                    assert(0 <= 2 * c + 2 < len && x == at(lo, r, 2 * c + 2));
                }
            }
            assert(p[x] == s1[x]);
        }
        assert forall|k: int| 0 <= k < len && (k < 2 * c + 1 || k == len - 1) implies p[#[trigger] at(lo, r, k)]
            == s[at(lo, r, k)] by {
            lemma_at_cmp(lo, r, k, 2 * c + 1);
            lemma_at_cmp(lo, r, k, 2 * c + 2);
        }
        assert forall|d: int| c <= d && 2 * d + 2 < len implies {
            &&& p[#[trigger] at(lo, r, 2 * d + 1)] == low(s, at(lo, r, 2 * d + 1), at(lo, r, 2 * d + 2))
            &&& p[at(lo, r, 2 * d + 2)] == high(s, at(lo, r, 2 * d + 1), at(lo, r, 2 * d + 2))
        } by {
            if d == c {
                assert(0 <= 2 * c + 1 < len && 2 * c + 1 < 2 * (c + 1) + 1);
                assert(p[at(lo, r, 2 * c + 1)] == s1[at(lo, r, 2 * c + 1)]);
                assert(0 <= 2 * c + 2 < len && 2 * c + 2 < 2 * (c + 1) + 1);
                assert(p[at(lo, r, 2 * c + 2)] == s1[at(lo, r, 2 * c + 2)]);
                assert(s1[i] == low(s, i, j));
                assert(s1[j] == high(s, i, j));
            } else {
                assert(c + 1 <= d);
                lemma_at_cmp(lo, r, 2 * d + 1, 2 * c + 1);
                lemma_at_cmp(lo, r, 2 * d + 1, 2 * c + 2);
                lemma_at_cmp(lo, r, 2 * d + 2, 2 * c + 1);
                lemma_at_cmp(lo, r, 2 * d + 2, 2 * c + 2);
                lemma_at_cmp(lo, r, 2 * d + 2, len - 1);
                lemma_at_cmp(lo, r, 0, 2 * d + 1);
                lemma_at_cmp(lo, r, 2 * d + 1, 2 * d + 2);
                let (u, w) = (at(lo, r, 2 * d + 1), at(lo, r, 2 * d + 2));
                assert(p[u] == low(s1, u, w) && p[w] == high(s1, u, w));
                assert(s1[u] == s[u] && s1[w] == s[w]);
            }
        }
    } else {
        assert(!(2 * c + 2 < len));
    }
}

proof fn lemma_halves_off(lo: int, r: int, h: int, j: int)
    requires
        r > 0,
    ensures
        !on_stride(at(lo, r, 2 * j + 1), lo, 2 * r, h),
        !on_stride(at(lo, r, 2 * j), lo + r, 2 * r, h),
{
    if on_stride(at(lo, r, 2 * j + 1), lo, 2 * r, h) {
        let k = choose|k: int| 0 <= k < h && at(lo, r, 2 * j + 1) == #[trigger] at(lo, 2 * r, k);
        lemma_at_shift(lo, r, k);
        lemma_at_cmp(lo, r, 2 * j + 1, 2 * k);
    }
    if on_stride(at(lo, r, 2 * j), lo + r, 2 * r, h) {
        let k = choose|k: int| 0 <= k < h && at(lo, r, 2 * j) == #[trigger] at(lo + r, 2 * r, k);
        lemma_at_shift(lo, r, k);
        lemma_at_cmp(lo, r, 2 * j, 2 * k + 1);
    }
}

proof fn lemma_whole_off(lo: int, r: int, h: int, x: int)
    requires
        r > 0,
        !on_stride(x, lo, r, 2 * h),
    ensures
        !on_stride(x, lo, 2 * r, h),
        !on_stride(x, lo + r, 2 * r, h),
{
    if on_stride(x, lo, 2 * r, h) {
        let k = choose|k: int| 0 <= k < h && x == #[trigger] at(lo, 2 * r, k);
        lemma_at_shift(lo, r, k);
        assert(0 <= 2 * k < 2 * h && x == at(lo, r, 2 * k));
    }
    if on_stride(x, lo + r, 2 * r, h) {
        let k = choose|k: int| 0 <= k < h && x == #[trigger] at(lo + r, 2 * r, k);
        lemma_at_shift(lo, r, k);
        assert(0 <= 2 * k + 1 < 2 * h && x == at(lo, r, 2 * k + 1));
    }
}

/// The facts about sizes that each step of the merge induction uses.
proof fn lemma_merge_sizes(lo: int, r: int, len: int, e: nat)
    requires
        r > 0,
        len == pow2(e),
        e >= 1,
    ensures
        len == 2 * (len / 2),
        at(lo, r, 0) == lo,
        at(lo, r, 1) == lo + r,
        at(lo, r, len) == lo + r * len,
        e == 1 ==> len == 2 && 2 * r >= r * len,
        e >= 2 ==> len >= 4 && len / 2 == pow2((e - 1) as nat) && (len / 2) % 2 == 0 && !(2 * r >= r * len)
            && (2 * r) * (len / 2) == r * len,
{
    lemma2_to64();
    lemma_pow2_unfold(e);
    assert(r * 0 == 0 && r * 1 == r) by (nonlinear_arith);
    if e >= 2 {
        lemma_pow2_unfold((e - 1) as nat);
        lemma_pow2_pos((e - 2) as nat);
        assert(r * len > 2 * r) by (nonlinear_arith)
            requires
                r > 0,
                len >= 4,
        ;
        assert((2 * r) * (len / 2) == r * len) by (nonlinear_arith)
            requires
                len == 2 * (len / 2),
        ;
    } else {
        assert(r * len == 2 * r) by (nonlinear_arith)
            requires
                len == 2,
        ;
    }
}

/// A merge along the stride touches nothing off it.
proof fn lemma_merge_frame(s: Seq<u64>, lo: int, r: int, len: int, e: nat)
    requires
        r > 0,
        lo >= 0,
        len == pow2(e),
        e >= 1,
        at(lo, r, len - 1) < s.len(),
    ensures
        merge_spec(s, lo, r * len, r).len() == s.len(),
        forall|x: int|
            0 <= x < s.len() && !on_stride(x, lo, r, len) ==> merge_spec(s, lo, r * len, r)[x] == s[x],
    decreases e,
{
    let n = r * len;
    lemma_merge_sizes(lo, r, len, e);
    let m = merge_spec(s, lo, n, r);
    if e == 1 {
        lemma_at_cmp(lo, r, 0, 1);
        assert forall|x: int| 0 <= x < s.len() && !on_stride(x, lo, r, len) implies m[x] == s[x] by {
            if x == lo {
                assert(0 <= 0 < len && x == at(lo, r, 0));
            }
            if x == lo + r {
                assert(0 <= 1 < len && x == at(lo, r, 1));
            }
        }
    } else {
        let h = len / 2;
        lemma_at_shift(lo, r, h - 1);
        lemma_at_cmp(lo, r, 2 * (h - 1), len - 1);
        let s1 = merge_spec(s, lo, n, 2 * r);
        lemma_merge_frame(s, lo, 2 * r, h, (e - 1) as nat);
        let s2 = merge_spec(s1, lo + r, n, 2 * r);
        lemma_merge_frame(s1, lo + r, 2 * r, h, (e - 1) as nat);
        lemma_pass(s2, lo, r, len, 0);
        assert(m == pass_spec(s2, at(lo, r, 1), at(lo, r, len), r));
        assert forall|x: int| 0 <= x < s.len() && !on_stride(x, lo, r, len) implies m[x] == s[x] by {
            lemma_whole_off(lo, r, h, x);
        }
    }
}

/// The end of a merge along a stride: when the even and the odd positions
/// each hold their items below `t` as a prefix, of `ev` and `od` items with
/// `od <= ev <= od + 2`, the closing pass leaves a prefix of `ev + od`.
pub(crate) proof fn lemma_pass_below(s2: Seq<u64>, p: Seq<u64>, lo: int, r: int, len: int, t: int, ev: int, od: int)
    requires
        len >= 4,
        len % 2 == 0,
        0 <= od <= ev <= od + 2,
        ev <= len / 2,
        od <= len / 2,
        forall|j: int| 0 <= j < len / 2 ==> (#[trigger] s2[at(lo, r, 2 * j)] < t <==> j < ev),
        forall|j: int| 0 <= j < len / 2 ==> (#[trigger] s2[at(lo, r, 2 * j + 1)] < t <==> j < od),
        p[at(lo, r, 0)] == s2[at(lo, r, 0)],
        p[at(lo, r, len - 1)] == s2[at(lo, r, len - 1)],
        forall|d: int|
            0 <= d && 2 * d + 2 < len ==> {
                &&& p[#[trigger] at(lo, r, 2 * d + 1)] == low(s2, at(lo, r, 2 * d + 1), at(lo, r, 2 * d + 2))
                &&& p[at(lo, r, 2 * d + 2)] == high(s2, at(lo, r, 2 * d + 1), at(lo, r, 2 * d + 2))
            },
    ensures
        prefix_below(p, lo, r, 0, len, t, ev + od),
{
    let h = len / 2;
    assert forall|k: int| 0 <= k < len implies (#[trigger] p[at(lo, r, k)] < t <==> k - 0 < ev + od) by {
        if k == 0 {
            assert(s2[at(lo, r, 2 * (0 as int))] < t <==> 0 < ev);
        } else if k == len - 1 {
            assert(s2[at(lo, r, 2 * (h - 1) + 1)] < t <==> h - 1 < od);
        } else if k % 2 == 1 {
            let d = (k - 1) / 2;
            assert(k == 2 * d + 1 && 2 * d + 2 < len);
            assert(s2[at(lo, r, 2 * d + 1)] < t <==> d < od);
            assert(s2[at(lo, r, 2 * (d + 1))] < t <==> d + 1 < ev);
        } else {
            let d = (k - 2) / 2;
            assert(k == 2 * d + 2 && 2 * d + 2 < len);
            assert(s2[at(lo, r, 2 * d + 1)] < t <==> d < od);
            assert(s2[at(lo, r, 2 * (d + 1))] < t <==> d + 1 < ev);
        }
    }
}

/// Merging two runs whose items below `t` are prefixes of `a` and `b` items
/// gives a run whose items below `t` are a prefix of `a + b` items.
proof fn lemma_merge_below(s: Seq<u64>, lo: int, r: int, len: int, e: nat, t: int, a: int, b: int)
    requires
        r > 0,
        lo >= 0,
        len == pow2(e),
        e >= 1,
        at(lo, r, len - 1) < s.len(),
        0 <= a <= len / 2,
        0 <= b <= len / 2,
        prefix_below(s, lo, r, 0, len / 2, t, a),
        prefix_below(s, lo, r, len / 2, len / 2, t, b),
    ensures
        prefix_below(merge_spec(s, lo, r * len, r), lo, r, 0, len, t, a + b),
    decreases e,
{
    let n = r * len;
    lemma_merge_sizes(lo, r, len, e);
    let m = merge_spec(s, lo, n, r);
    if e == 1 {
        lemma_at_cmp(lo, r, 0, 1);
        assert(s[at(lo, r, 0)] < t <==> 0 < a);
        assert(s[at(lo, r, 1)] < t <==> 0 < b);
        assert(m[at(lo, r, 0)] == low(s, lo, lo + r));
        assert(m[at(lo, r, 1)] == high(s, lo, lo + r));
    } else {
        let h = len / 2;
        let q = h / 2;
        let ea = (a + 1) / 2;
        let eb = (b + 1) / 2;
        let oa = a / 2;
        let ob = b / 2;
        lemma_at_shift(lo, r, h - 1);
        lemma_at_cmp(lo, r, 2 * (h - 1), len - 1);
        // the even positions
        assert forall|j: int| 0 <= j < q implies (#[trigger] s[at(lo, 2 * r, j)] < t <==> j - 0 < ea) by {
            lemma_at_shift(lo, r, j);
        }
        assert forall|j: int| q <= j < q + q implies (#[trigger] s[at(lo, 2 * r, j)] < t <==> j - q < eb) by {
            lemma_at_shift(lo, r, j);
        }
        let s1 = merge_spec(s, lo, n, 2 * r);
        lemma_merge_below(s, lo, 2 * r, h, (e - 1) as nat, t, ea, eb);
        lemma_merge_frame(s, lo, 2 * r, h, (e - 1) as nat);
        // the odd positions, which that merge left alone
        assert forall|j: int| 0 <= j < h implies #[trigger] s1[at(lo, r, 2 * j + 1)] == s[at(lo, r, 2 * j + 1)] by {
            lemma_halves_off(lo, r, h, j);
            lemma_at_cmp(lo, r, 2 * j + 1, len - 1);
            lemma_at_cmp(lo, r, 0, 2 * j + 1);
        }
        assert forall|j: int| 0 <= j < q implies (#[trigger] s1[at(lo + r, 2 * r, j)] < t <==> j - 0 < oa) by {
            lemma_at_shift(lo, r, j);
            assert(s1[at(lo, r, 2 * j + 1)] == s[at(lo, r, 2 * j + 1)]);
        }
        assert forall|j: int| q <= j < q + q implies (#[trigger] s1[at(lo + r, 2 * r, j)] < t <==> j - q < ob) by {
            lemma_at_shift(lo, r, j);
            assert(s1[at(lo, r, 2 * j + 1)] == s[at(lo, r, 2 * j + 1)]);
        }
        let s2 = merge_spec(s1, lo + r, n, 2 * r);
        lemma_merge_below(s1, lo + r, 2 * r, h, (e - 1) as nat, t, oa, ob);
        lemma_merge_frame(s1, lo + r, 2 * r, h, (e - 1) as nat);
        let ev = ea + eb;
        let od = oa + ob;
        // in s2, even position 2j is below t iff j < ev, odd position 2j + 1 iff j < od
        assert forall|j: int| 0 <= j < h implies (#[trigger] s2[at(lo, r, 2 * j)] < t <==> j < ev) by {
            lemma_halves_off(lo, r, h, j);
            lemma_at_cmp(lo, r, 2 * j, len - 1);
            lemma_at_cmp(lo, r, 0, 2 * j);
            lemma_at_shift(lo, r, j);
            assert(s2[at(lo, r, 2 * j)] == s1[at(lo, r, 2 * j)]);
            assert(s1[at(lo, 2 * r, j)] < t <==> j - 0 < ev);
        }
        assert forall|j: int| 0 <= j < h implies (#[trigger] s2[at(lo, r, 2 * j + 1)] < t <==> j < od) by {
            lemma_at_shift(lo, r, j);
            assert(s2[at(lo + r, 2 * r, j)] < t <==> j - 0 < od);
        }
        lemma_pass(s2, lo, r, len, 0);
        assert(m == pass_spec(s2, at(lo, r, 1), at(lo, r, len), r));
        lemma_pass_below(s2, m, lo, r, len, t, ev, od);
    }
}

/// `s[lo .. lo + n)` is in ascending order.
pub open spec fn sorted_range(s: Seq<u64>, lo: int, n: int) -> bool {
    forall|i: int, j: int| lo <= i < j < lo + n ==> s[i] <= s[j]
}

/// How many of `s[lo .. lo + len)` are below `t`, when that run is ascending.
pub open spec fn count_below(s: Seq<u64>, lo: int, len: int, t: int) -> int
    decreases len,
{
    if len <= 0 {
        0
    } else if s[lo + len - 1] < t {
        len
    } else {
        count_below(s, lo, len - 1, t)
    }
}

pub(crate) proof fn lemma_count_below(s: Seq<u64>, lo: int, len: int, t: int)
    requires
        sorted_range(s, lo, len),
        0 <= lo,
        0 <= len,
        lo + len <= s.len(),
    ensures
        0 <= count_below(s, lo, len, t) <= len,
        prefix_below(s, lo, 1, 0, len, t, count_below(s, lo, len, t)),
    decreases len,
{
    let c = count_below(s, lo, len, t);
    if len > 0 {
        if s[lo + len - 1] < t {
            assert forall|k: int| 0 <= k < len implies (#[trigger] s[at(lo, 1, k)] < t <==> k - 0 < c) by {
                assert(at(lo, 1, k) == lo + k);
                if k < len - 1 {
                    assert(s[lo + k] <= s[lo + len - 1]);
                }
            }
        } else {
            lemma_count_below(s, lo, len - 1, t);
            assert forall|k: int| 0 <= k < len implies (#[trigger] s[at(lo, 1, k)] < t <==> k - 0 < c) by {
                assert(at(lo, 1, k) == lo + k);
            }
        }
    }
}

/// Sorting `s[lo .. lo + n)` leaves it ascending and touches nothing else.
proof fn lemma_sort_range(s: Seq<u64>, lo: int, n: int, e: nat)
    requires
        n == pow2(e),
        0 <= lo,
        lo + n <= s.len(),
    ensures
        sort_spec(s, lo, n).len() == s.len(),
        sorted_range(sort_spec(s, lo, n), lo, n),
        forall|x: int| 0 <= x < s.len() && (x < lo || x >= lo + n) ==> sort_spec(s, lo, n)[x] == s[x],
    decreases e,
{
    lemma2_to64();
    if n > 1 {
        if e == 0 {
            assert(false);
        }
        lemma_pow2_unfold(e);
        let m = n / 2;
        let s1 = sort_spec(s, lo, m);
        lemma_sort_range(s, lo, m, (e - 1) as nat);
        let s2 = sort_spec(s1, lo + m, m);
        lemma_sort_range(s1, lo + m, m, (e - 1) as nat);
        assert(1 * n == n);
        assert(at(lo, 1, n - 1) == lo + n - 1);
        let res = merge_spec(s2, lo, n, 1);
        assert(res == sort_spec(s, lo, n));
        lemma_merge_frame(s2, lo, 1, n, e);
        assert(sorted_range(s2, lo, m)) by {
            assert forall|i: int, j: int| lo <= i < j < lo + m implies s2[i] <= s2[j] by {
                assert(s2[i] == s1[i] && s2[j] == s1[j]);
            }
        }
        assert forall|x: int| 0 <= x < s.len() && (x < lo || x >= lo + n) implies res[x] == s[x] by {
            if on_stride(x, lo, 1, n) {
                let k = choose|k: int| 0 <= k < n && x == #[trigger] at(lo, 1, k);
                assert(at(lo, 1, k) == lo + k);
            }
        }
        assert forall|i: int, j: int| lo <= i < j < lo + n implies res[i] <= res[j] by {
            if res[i] > res[j] {
                let t = res[i] as int;
                let a = count_below(s2, lo, m, t);
                let b = count_below(s2, lo + m, m, t);
                lemma_count_below(s2, lo, m, t);
                lemma_count_below(s2, lo + m, m, t);
                assert forall|k: int| m <= k < m + m implies (#[trigger] s2[at(lo, 1, k)] < t <==> k - m < b) by {
                    assert(at(lo, 1, k) == at(lo + m, 1, k - m));
                }
                lemma_merge_below(s2, lo, 1, n, e, t, a, b);
                assert(res[at(lo, 1, j - lo)] < t);
                assert(res[at(lo, 1, i - lo)] < t);
            }
        }
    }
}

/// The recursive sorter sorts: on a buffer whose length is a power of two,
/// what comes out is in ascending order.
pub proof fn lemma_sort_sorts(s: Seq<u64>)
    requires
        is_pow2_value(s.len() as int),
    ensures
        sorted(sort_spec(s, 0, s.len() as int)),
{
    let e = choose|k: nat| pow2(k) == s.len();
    lemma_sort_range(s, 0, s.len() as int, e);
}

} // verus!
