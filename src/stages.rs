//! Why the fixed-size executor sorts: each stage of the last group acts on
//! disjoint pairs, and along every stride class the items below a threshold
//! stay a prefix.
use crate::exchange::{apply_pairs, cx, lemma_apply_concat, lemma_apply_cons, sorted};
use crate::fixed::{fixed_spec, last_group, lemma_fixed_permutes};
use crate::recursive::{lemma_sort_permutes, sort_spec};
use crate::utils::is_pow2_value;
use crate::generate::{lemma_stage_split, pattern_count, Block, Pattern, Stage};
use crate::sortedness::{
    at, count_below, high, lemma_at_shift, lemma_count_below, lemma_pass_below, low, sorted_range,
};
use vstd::arithmetic::div_mod::{lemma_fundamental_div_mod, lemma_fundamental_div_mod_converse, lemma_mod_pos_bound};
use vstd::arithmetic::power2::{
    lemma2_to64, lemma_pow2_pos, lemma_pow2_strictly_increases, lemma_pow2_unfold, pow2,
};
use vstd::prelude::*;
use vstd::relations::{sorted_by, total_ordering};
use vstd::seq_lib::lemma_sorted_unique;

verus! {

/// Position `j` of the pattern `p` of a stage whose patterns start at `o`,
/// `2 * d` apart.
pub open spec fn slot(o: int, d: int, p: int, j: int) -> int {
    o + p * (2 * d) + j
}

/// `base + j`.
pub open spec fn shifted(base: int, j: int) -> int {
    base + j
}

proof fn lemma_pattern_effect(x: Seq<u64>, pt: Pattern, start: int)
    requires
        pt.max == pt.min + pt.cursor.count,
        pt.cursor.index <= pt.cursor.count,
        pt.max + pt.cursor.count <= usize::MAX,
        0 <= start,
        start + pt.max + pt.cursor.count <= x.len(),
    ensures
        ({
            let y = apply_pairs(x, pt.rest(), start);
            let (lo, hi) = (start + pt.min, start + pt.max);
            &&& y.len() == x.len()
            &&& forall|j: int|
                pt.cursor.index <= j < pt.cursor.count ==> {
                    &&& y[#[trigger] shifted(lo, j)] == low(x, lo + j, hi + j)
                    &&& y[hi + j] == high(x, lo + j, hi + j)
                }
            &&& forall|z: int|
                0 <= z < x.len() && (z < lo + pt.cursor.index || z >= hi + pt.cursor.count || (hi <= z < hi
                    + pt.cursor.index)) ==> y[z] == x[z]
        }),
    decreases pt.cursor.count - pt.cursor.index,
{
    let (lo, hi) = (start + pt.min, start + pt.max);
    let i = pt.cursor.index as int;
    if i < pt.cursor.count {
        let item = pt.item();
        let adv = pt.advanced();
        let u = lo + i;
        let w = hi + i;
        assert(pt.rest() == seq![item] + adv.rest());
        lemma_apply_cons(x, item, adv.rest(), start);
        let x1 = cx(x, u, w);
        assert(start + item.min == u && start + item.max == w);
        lemma_pattern_effect(x1, adv, start);
        let y = apply_pairs(x, pt.rest(), start);
        assert(y == apply_pairs(x1, adv.rest(), start));
        assert forall|j: int| i <= j < pt.cursor.count implies {
            &&& y[#[trigger] shifted(lo, j)] == low(x, lo + j, hi + j)
            &&& y[hi + j] == high(x, lo + j, hi + j)
        } by {
            if j == i {
                assert(y[u] == x1[u]);
                assert(y[w] == x1[w]);
            } else {
                assert(y[shifted(lo, j)] == low(x1, lo + j, hi + j));
                assert(x1[lo + j] == x[lo + j] && x1[hi + j] == x[hi + j]);
            }
        }
        assert forall|z: int|
            0 <= z < x.len() && (z < lo + i || z >= hi + pt.cursor.count || (hi <= z < hi + i)) implies y[z]
            == x[z] by {
            assert(z != u && z != w);
            assert(y[z] == x1[z]);
        }
    }
}

/// What the pairs of a stage, from pattern `index` on, do: each pair ends as
/// (smaller, larger), and nothing outside those patterns moves.
pub proof fn lemma_stage_effect(x: Seq<u64>, st: Stage, start: int)
    requires
        st.wf(),
        0 <= start,
        start + st.offset + 2 * st.distance * st.cursor.count <= x.len(),
    ensures
        ({
            let y = apply_pairs(x, st.rest(), start);
            let o = start + st.offset;
            let d = st.distance as int;
            &&& y.len() == x.len()
            &&& forall|p: int, j: int|
                st.cursor.index <= p < st.cursor.count && 0 <= j < d ==> {
                    &&& y[#[trigger] slot(o, d, p, j)] == low(x, slot(o, d, p, j), slot(o, d, p, j) + d)
                    &&& y[slot(o, d, p, j) + d] == high(x, slot(o, d, p, j), slot(o, d, p, j) + d)
                }
            &&& forall|z: int|
                0 <= z < x.len() && (z < o + st.cursor.index * (2 * d) || z >= o + st.cursor.count * (2 * d))
                    ==> y[z] == x[z]
        }),
    decreases st.cursor.count - st.cursor.index,
{
    let (o, d) = (start + st.offset, st.distance as int);
    let i = st.cursor.index as int;
    let c = st.cursor.count as int;
    assert(c * (2 * d) == 2 * d * c) by (nonlinear_arith);
    if i < c {
        let pat = st.item();
        let adv = st.advanced();
        assert(i * (2 * d) + 2 * d <= c * (2 * d)) by (nonlinear_arith)
            requires
                i < c,
                d > 0,
        ;
        assert(i * (2 * d) + 2 * d == (i + 1) * (2 * d)) by (nonlinear_arith);
        assert(0 <= i * (2 * d)) by (nonlinear_arith)
            requires
                i >= 0,
                d > 0,
        ;
        let base = o + i * (2 * d);
        assert(start + pat.min == base && pat.max == pat.min + d && pat.cursor.count == d && pat.cursor.index == 0);
        assert(st.rest() == pat.rest() + adv.rest());
        lemma_apply_concat(x, pat.rest(), adv.rest(), start);
        lemma_pattern_effect(x, pat, start);
        let x1 = apply_pairs(x, pat.rest(), start);
        lemma_stage_effect(x1, adv, start);
        let y = apply_pairs(x, st.rest(), start);
        assert(y == apply_pairs(x1, adv.rest(), start));
        assert forall|p: int, j: int| i <= p < c && 0 <= j < d implies {
            &&& y[#[trigger] slot(o, d, p, j)] == low(x, slot(o, d, p, j), slot(o, d, p, j) + d)
            &&& y[slot(o, d, p, j) + d] == high(x, slot(o, d, p, j), slot(o, d, p, j) + d)
        } by {
            if p == i {
                assert(slot(o, d, p, j) == shifted(base, j));
                assert(y[slot(o, d, p, j)] == x1[slot(o, d, p, j)]);
                assert(y[slot(o, d, p, j) + d] == x1[slot(o, d, p, j) + d]);
            } else {
                assert(p * (2 * d) >= (i + 1) * (2 * d)) by (nonlinear_arith)
                    requires
                        p >= i + 1,
                        d > 0,
                ;
                assert(p * (2 * d) + 2 * d <= c * (2 * d)) by (nonlinear_arith)
                    requires
                        p < c,
                        d > 0,
                ;
                assert(y[slot(o, d, p, j)] == low(x1, slot(o, d, p, j), slot(o, d, p, j) + d));
                assert(x1[slot(o, d, p, j)] == x[slot(o, d, p, j)]);
                assert(x1[slot(o, d, p, j) + d] == x[slot(o, d, p, j) + d]);
            }
        }
        assert forall|z: int| 0 <= z < x.len() && (z < o + i * (2 * d) || z >= o + c * (2 * d)) implies y[z]
            == x[z] by {
            assert(y[z] == x1[z]);
        }
    }
}

/// How many of the positions `c, c + dd, c + 2 * dd, ...` lie below `a`.
pub open spec fn cnt(a: int, c: int, dd: int) -> int {
    if a <= c {
        0
    } else {
        (a - c - 1) / dd + 1
    }
}

proof fn lemma_cnt_split(a: int, c: int, d: int)
    requires
        d > 0,
        c >= 0,
    ensures
        cnt(a, c, 2 * d) + cnt(a, c + d, 2 * d) == cnt(a, c, d),
        cnt(a, c + d, 2 * d) <= cnt(a, c, 2 * d) <= cnt(a, c + d, 2 * d) + 1,
{
    if a > c {
        let u = a - c - 1;
        let q = u / (2 * d);
        let rr = u % (2 * d);
        lemma_fundamental_div_mod(u, 2 * d);
        lemma_mod_pos_bound(u, 2 * d);
        assert(u == q * (2 * d) + rr) by (nonlinear_arith)
            requires
                u == (2 * d) * q + rr,
        ;
        assert(q >= 0) by (nonlinear_arith)
            requires
                u == q * (2 * d) + rr,
                u >= 0,
                rr < 2 * d,
                d > 0,
        ;
        if rr >= d {
            assert(u == (2 * q + 1) * d + (rr - d)) by (nonlinear_arith)
                requires
                    u == q * (2 * d) + rr,
            ;
            lemma_fundamental_div_mod_converse(u, d, 2 * q + 1, rr - d);
            assert(u - d == q * (2 * d) + (rr - d));
            lemma_fundamental_div_mod_converse(u - d, 2 * d, q, rr - d);
        } else {
            assert(u == (2 * q) * d + rr) by (nonlinear_arith)
                requires
                    u == q * (2 * d) + rr,
            ;
            lemma_fundamental_div_mod_converse(u, d, 2 * q, rr);
            if u >= d {
                assert(q >= 1) by (nonlinear_arith)
                    requires
                        u == q * (2 * d) + rr,
                        u >= d,
                        rr < d,
                        q >= 0,
                ;
                assert(u - d == (q - 1) * (2 * d) + (rr + d)) by (nonlinear_arith)
                    requires
                        u == q * (2 * d) + rr,
                ;
                lemma_fundamental_div_mod_converse(u - d, 2 * d, q - 1, rr + d);
            } else {
                assert(q == 0) by (nonlinear_arith)
                    requires
                        u == q * (2 * d) + rr,
                        u < d,
                        rr >= 0,
                        q >= 0,
                        d > 0,
                ;
            }
        }
    }
}

proof fn lemma_cnt_bound(a: int, c: int, dd: int, m: int)
    requires
        dd > 0,
        c >= 0,
        m >= 0,
        a <= dd * m,
    ensures
        0 <= cnt(a, c, dd) <= m,
{
    if a > c {
        let u = a - c - 1;
        lemma_fundamental_div_mod(u, dd);
        lemma_mod_pos_bound(u, dd);
        assert(0 <= u / dd < m) by (nonlinear_arith)
            requires
                u == dd * (u / dd) + u % dd,
                0 <= u % dd < dd,
                0 <= u < dd * m,
                dd > 0,
        ;
    }
}

proof fn lemma_cnt_small(a: int, c: int, dd: int)
    requires
        0 <= c < dd,
        a <= dd,
    ensures
        cnt(a, c, dd) == if c < a { 1int } else { 0 },
{
    if a > c {
        lemma_fundamental_div_mod_converse(a - c - 1, dd, 0, a - c - 1);
    }
}

proof fn lemma_cnt_unit(a: int)
    requires
        a >= 0,
    ensures
        cnt(a, 0, 1) == a,
{
    if a > 0 {
        lemma_fundamental_div_mod_converse(a - 1, 1, a - 1, 0);
    }
}

/// Along the stride `dd` from `start`, every class `c < dd` of `m` positions
/// holds items below `t` exactly on its first `cnt(a, c, dd) + cnt(b, c, dd)`.
pub open spec fn classes_below(y: Seq<u64>, start: int, dd: int, m: int, t: int, a: int, b: int) -> bool {
    forall|c: int, k: int|
        0 <= c < dd && 0 <= k < m ==> (#[trigger] y[at(start + c, dd, k)] < t <==> k < cnt(a, c, dd) + cnt(b, c, dd))
}

/// One class along the stride of a stage: its two halves along twice the
/// stride are in order below `t`, and the stage merges them.
proof fn lemma_stage_class(
    x: Seq<u64>,
    st: Stage,
    start: int,
    c: int,
    t: int,
    a: int,
    bb: int,
    d: int,
    len: int,
    q: int,
    h: int,
)
    requires
        st.wf(),
        st.offset == d,
        st.distance == d,
        st.cursor.index == 0,
        st.cursor.count == q - 1,
        d > 0,
        len == 2 * q,
        len >= 4,
        q % 2 == 0,
        h == (2 * d) * (q / 2),
        2 * h == d * len,
        0 <= c < d,
        0 <= start,
        start + 2 * h <= x.len(),
        0 <= a <= h,
        0 <= bb <= h,
        classes_below(x, start, 2 * d, q, t, a, bb),
    ensures
        forall|k: int|
            0 <= k < len ==> (#[trigger] apply_pairs(x, st.rest(), start)[at(start + c, d, k)] < t <==> k < cnt(a, c, d)
                + cnt(bb, c, d)),
{
    let cc = q - 1;
    assert(d + 2 * d * cc == 2 * h - d) by (nonlinear_arith)
        requires
            cc == q - 1,
            2 * h == d * (2 * q),
    ;
    lemma_stage_effect(x, st, start);
    let x1 = apply_pairs(x, st.rest(), start);
    assert(cc * (2 * d) == 2 * h - 2 * d) by (nonlinear_arith)
        requires
            d + 2 * d * cc == 2 * h - d,
    ;
    let lo = start + c;
    lemma_cnt_split(a, c, d);
    lemma_cnt_split(bb, c, d);
    lemma_cnt_bound(a, c, 2 * d, q / 2);
    lemma_cnt_bound(bb, c, 2 * d, q / 2);
    lemma_cnt_bound(a, c + d, 2 * d, q / 2);
    lemma_cnt_bound(bb, c + d, 2 * d, q / 2);
    let ev = cnt(a, c, 2 * d) + cnt(bb, c, 2 * d);
    let od = cnt(a, c + d, 2 * d) + cnt(bb, c + d, 2 * d);
    assert forall|j: int| 0 <= j < len / 2 implies (#[trigger] x[at(lo, d, 2 * j)] < t <==> j < ev) by {
        lemma_at_shift(lo, d, j);
        assert(x[at(start + c, 2 * d, j)] < t <==> j < ev);
    }
    assert forall|j: int| 0 <= j < len / 2 implies (#[trigger] x[at(lo, d, 2 * j + 1)] < t <==> j < od) by {
        lemma_at_shift(lo, d, j);
        assert(start + (c + d) == lo + d);
        assert(x[at(start + (c + d), 2 * d, j)] < t <==> j < od);
    }
    assert(at(lo, d, 0) == lo) by (nonlinear_arith);
    assert(at(lo, d, len - 1) == start + c + 2 * h - d) by (nonlinear_arith)
        requires
            2 * h == d * len,
            lo == start + c,
    ;
    assert(x1[at(lo, d, 0)] == x[at(lo, d, 0)]);
    assert(x1[at(lo, d, len - 1)] == x[at(lo, d, len - 1)]);
    assert forall|e: int| 0 <= e && 2 * e + 2 < len implies {
        &&& x1[#[trigger] at(lo, d, 2 * e + 1)] == low(x, at(lo, d, 2 * e + 1), at(lo, d, 2 * e + 2))
        &&& x1[at(lo, d, 2 * e + 2)] == high(x, at(lo, d, 2 * e + 1), at(lo, d, 2 * e + 2))
    } by {
        assert(at(lo, d, 2 * e + 1) == slot(start + st.offset, d, e, c)) by (nonlinear_arith)
            requires
                lo == start + c,
                st.offset == d,
        ;
        assert(at(lo, d, 2 * e + 2) == slot(start + st.offset, d, e, c) + d) by (nonlinear_arith)
            requires
                lo == start + c,
                st.offset == d,
        ;
        assert(e < cc);
        let o = start + st.offset;
        let u = slot(o, st.distance as int, e, c);
        assert(st.cursor.index <= e < st.cursor.count && 0 <= c < st.distance as int);
        assert(x1[u] == low(x, u, u + d));
        assert(x1[u + d] == high(x, u, u + d));
    }
    lemma_pass_below(x, x1, lo, d, len, t, ev, od);
    assert forall|k: int| 0 <= k < len implies (#[trigger] x1[at(start + c, d, k)] < t <==> k < cnt(a, c, d) + cnt(
        bb,
        c,
        d,
    )) by {
        assert(x1[at(lo, d, k)] < t <==> k - 0 < ev + od);
    }
}

/// The stages of the last merge from stage `index` on: when every class along
/// the stride of the previous stage is in order below `t`, the whole run ends
/// in order below `t`.
proof fn lemma_block_below(x: Seq<u64>, b: Block, start: int, t: int, a: int, bb: int)
    requires
        b.wf(),
        b.offset == 0,
        1 <= b.cursor.index,
        0 <= start,
        start + 2 * pow2(b.group_index as nat) <= x.len(),
        0 <= a <= pow2(b.group_index as nat),
        0 <= bb <= pow2(b.group_index as nat),
        classes_below(
            x,
            start,
            pow2((b.group_index + 1 - b.cursor.index) as nat) as int,
            pow2(b.cursor.index as nat) as int,
            t,
            a,
            bb,
        ),
    ensures
        apply_pairs(x, b.rest(), start).len() == x.len(),
        classes_below(
            apply_pairs(x, b.rest(), start),
            start,
            1,
            2 * pow2(b.group_index as nat) as int,
            t,
            a,
            bb,
        ),
        forall|z: int|
            0 <= z < x.len() && (z < start || z >= start + 2 * pow2(b.group_index as nat)) ==> apply_pairs(
                x,
                b.rest(),
                start,
            )[z] == x[z],
    decreases b.cursor.count - b.cursor.index,
{
    let g = b.group_index as nat;
    let st_i = b.cursor.index as nat;
    let h = pow2(g) as int;
    lemma2_to64();
    lemma_pow2_unfold(g + 1);
    if st_i <= g {
        let st = b.item();
        let adv = b.advanced();
        let d = pow2((g - st_i) as nat) as int;
        let cc = pattern_count(st_i) as int;
        lemma_stage_split(g, st_i);
        let len = pow2(st_i + 1) as int;
        let q = pow2(st_i) as int;
        lemma_pow2_unfold(st_i);
        lemma_pow2_pos((st_i - 1) as nat);
        assert(2 * h == d * len) by (nonlinear_arith)
            requires
                pow2(g + 1) == d * pow2(st_i + 1),
                pow2(g + 1) == 2 * h,
                len == pow2(st_i + 1),
        ;
        assert(h == (2 * d) * (q / 2) && q % 2 == 0 && len == 2 * q) by (nonlinear_arith)
            requires
                2 * h == d * len,
                len == 2 * q,
                q == 2 * pow2((st_i - 1) as nat),
        ;
        assert((g + 1 - st_i) as nat == ((g - st_i) as nat + 1) as nat);
        lemma_pow2_unfold((g - st_i + 1) as nat);
        assert(pow2((g + 1 - st_i) as nat) == 2 * d);
        lemma_pow2_strictly_increases((g - st_i) as nat, g + 1);
        if st_i < g + 1 {
            lemma_pow2_strictly_increases(st_i, g + 1);
        }
        assert(pattern_count(st_i) <= q);
        assert(st.offset == d && st.distance == d && st.cursor.count == cc && cc == q - 1);
        assert(d + 2 * d * cc == 2 * h - d) by (nonlinear_arith)
            requires
                cc == q - 1,
                2 * h == d * (2 * q),
        ;
        assert(b.rest() == st.rest() + adv.rest());
        lemma_apply_concat(x, st.rest(), adv.rest(), start);
        lemma_stage_effect(x, st, start);
        let x1 = apply_pairs(x, st.rest(), start);
        assert(d * (q - 1) * 2 == cc * (2 * d)) by (nonlinear_arith)
            requires
                cc == q - 1,
        ;
        // every class along the stride d is in order in x1
        assert forall|c: int, k: int| 0 <= c < d && 0 <= k < len implies (#[trigger] x1[at(start + c, d, k)] < t
            <==> k < cnt(a, c, d) + cnt(bb, c, d)) by {
            lemma_stage_class(x, st, start, c, t, a, bb, d, len, q, h);
        }
        lemma_block_below(x1, adv, start, t, a, bb);
        assert((g + 1 - (st_i + 1)) as nat == (g - st_i) as nat);
        let y = apply_pairs(x, b.rest(), start);
        assert forall|z: int| 0 <= z < x.len() && (z < start || z >= start + 2 * h) implies y[z] == x[z] by {
            assert(cc * (2 * d) == 2 * h - 2 * d) by (nonlinear_arith)
                requires
                    d + 2 * d * cc == 2 * h - d,
            ;
            assert(x1[z] == x[z]);
        }
    } else {
        assert((g + 1 - st_i) as nat == 0);
        assert(b.rest() =~= Seq::empty());
        assert forall|c: int, k: int| 0 <= c < 1 && 0 <= k < 2 * h implies (#[trigger] x[at(start + c, 1, k)] < t
            <==> k < cnt(a, c, 1) + cnt(bb, c, 1)) by {
            assert(x[at(start + c, pow2(0) as int, k)] < t <==> k < cnt(a, c, pow2(0) as int) + cnt(
                bb,
                c,
                pow2(0) as int,
            ));
        }
    }
}

/// The network of order `o` leaves `s[start .. start + 2^o)` ascending and
/// touches nothing else.
proof fn lemma_fixed_range(s: Seq<u64>, start: int, o: nat)
    requires
        0 <= start,
        start + pow2(o) <= s.len(),
        o < usize::BITS,
    ensures
        fixed_spec(s, start, o).len() == s.len(),
        sorted_range(fixed_spec(s, start, o), start, pow2(o) as int),
        forall|z: int|
            0 <= z < s.len() && (z < start || z >= start + pow2(o)) ==> fixed_spec(s, start, o)[z] == s[z],
    decreases o,
{
    lemma2_to64();
    if o > 0 {
        let g = (o - 1) as nat;
        let h = pow2(g) as int;
        lemma_pow2_unfold(o);
        vstd::bits::lemma_usize_pow2_no_overflow(o);
        let xa = fixed_spec(s, start, g);
        lemma_fixed_range(s, start, g);
        let x0 = fixed_spec(xa, start + h, g);
        lemma_fixed_range(xa, start + h, g);
        let res = fixed_spec(s, start, o);
        assert(res == apply_pairs(x0, last_group(o).rest(), start));
        assert(sorted_range(x0, start, h)) by {
            assert forall|i: int, j: int| start <= i < j < start + h implies x0[i] <= x0[j] by {
                assert(x0[i] == xa[i] && x0[j] == xa[j]);
            }
        }
        let gr = last_group(o);
        let blk = Block::spec_new(0, g as usize);
        assert(gr.item() == blk);
        assert(gr.advanced().rest() =~= Seq::empty());
        assert(gr.rest() =~= blk.rest());
        let st0 = blk.item();
        let blk1 = blk.advanced();
        assert(blk.rest() == st0.rest() + blk1.rest());
        assert(st0.offset == 0 && st0.distance == h && st0.cursor.count == 1 && st0.cursor.index == 0);
        assert(2 * st0.distance * st0.cursor.count == 2 * h) by (nonlinear_arith)
            requires
                st0.distance == h,
                st0.cursor.count == 1,
        ;
        lemma_apply_concat(x0, st0.rest(), blk1.rest(), start);
        lemma_stage_effect(x0, st0, start);
        let x1 = apply_pairs(x0, st0.rest(), start);
        assert(res == apply_pairs(x1, blk1.rest(), start));
        assert(blk1.wf());
        // nothing lies below 0: this settles the length and what stays put
        assert(classes_below(x1, start, h, 2, 0, 0, 0));
        lemma_block_below(x1, blk1, start, 0, 0, 0);
        assert((g + 1 - 1) as nat == g);
        assert(pow2(1) == 2);
        assert forall|i: int, j: int| start <= i < j < start + 2 * h implies res[i] <= res[j] by {
            if res[i] > res[j] {
                let t = res[i] as int;
                let a = count_below(x0, start, h, t);
                let b = count_below(x0, start + h, h, t);
                lemma_count_below(x0, start, h, t);
                lemma_count_below(x0, start + h, h, t);
                assert forall|c: int, k: int| 0 <= c < h && 0 <= k < 2 implies (#[trigger] x1[at(start + c, h, k)]
                    < t <==> k < cnt(a, c, h) + cnt(b, c, h)) by {
                    lemma_cnt_small(a, c, h);
                    lemma_cnt_small(b, c, h);
                    let u = slot(start + st0.offset, st0.distance as int, 0, c);
                    assert(u == start + c);
                    assert(x1[u] == low(x0, u, u + h));
                    assert(x1[u + h] == high(x0, u, u + h));
                    assert(at(start + c, h, 0) == u && at(start + c, h, 1) == u + h) by (nonlinear_arith)
                        requires
                            u == start + c,
                    ;
                    assert(at(start, 1, c) == start + c && at(start + h, 1, c) == start + h + c);
                    assert(x0[at(start, 1, c)] < t <==> c - 0 < a);
                    assert(x0[at(start + h, 1, c)] < t <==> c - 0 < b);
                }
                lemma_block_below(x1, blk1, start, t, a, b);
                lemma_cnt_unit(a);
                lemma_cnt_unit(b);
                assert(at(start + 0, 1, j - start) == j && at(start + 0, 1, i - start) == i);
                assert(res[at(start + 0, 1, j - start)] < t);
                assert(res[at(start + 0, 1, i - start)] < t);
            }
        }
        assert forall|z: int| 0 <= z < s.len() && (z < start || z >= start + pow2(o)) implies res[z] == s[z] by {
            assert(z < start + 0 * (2 * h) || z >= start + 1 * (2 * h));
            assert(x1[z] == x0[z]);
        }
    }
}

/// The network of any order sorts: on a buffer of `2^order` items, what comes
/// out is in ascending order.
pub proof fn lemma_fixed_sorts(s: Seq<u64>, order: usize)
    requires
        order < usize::BITS,
        s.len() == pow2(order as nat),
    ensures
        sorted(fixed_spec(s, 0, order as nat)),
{
    lemma_fixed_range(s, 0, order as nat);
}

/// The fixed-size network and the recursive sorter give the same output on
/// every buffer of `2^order` items.
pub proof fn lemma_fixed_matches_recursive(s: Seq<u64>, order: usize)
    requires
        order < usize::BITS,
        s.len() == pow2(order as nat),
    ensures
        fixed_spec(s, 0, order as nat) == sort_spec(s, 0, s.len() as int),
{
    let x = fixed_spec(s, 0, order as nat);
    let y = sort_spec(s, 0, s.len() as int);
    lemma_fixed_sorts(s, order);
    lemma_fixed_permutes(s, 0, order as nat);
    assert(is_pow2_value(s.len() as int));
    crate::sortedness::lemma_sort_sorts(s);
    lemma_sort_permutes(s);
    let leq = |a: u64, b: u64| a <= b;
    assert(total_ordering(leq));
    assert(sorted_by(x, leq));
    assert(sorted_by(y, leq));
    lemma_sorted_unique(x, y, leq);
}

} // verus!
