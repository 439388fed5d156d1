//! How many pairs the schedule of each order holds.
use crate::generate::{lemma_stage_split, pattern_count, Block, Group, Network, Pattern, Stage};
use vstd::arithmetic::power2::{lemma2_to64, lemma_pow2_adds, lemma_pow2_unfold, pow2};
use vstd::bits::lemma_usize_pow2_no_overflow;
use vstd::prelude::*;

verus! {

/// Batcher's comparator count for width `2^o`: `(o^2 - o + 4) * 2^(o - 2) - 1`.
pub open spec fn batcher_count(o: nat) -> int {
    ((o * o - o + 4) * pow2(o)) as int / 4 - 1
}

/// Pairs left in stages `k ..` of a merge of two runs of `2^g` items.
pub open spec fn block_len(g: nat, k: nat) -> int {
    if k == 0 {
        (g * pow2(g) + 1) as int
    } else {
        (g + 1 - k) * pow2(g) - pow2((g + 1 - k) as nat) + 1
    }
}

proof fn lemma_pattern_len(p: Pattern)
    requires
        p.cursor.index <= p.cursor.count,
    ensures
        p.rest().len() == p.cursor.count - p.cursor.index,
    decreases p.cursor.count - p.cursor.index,
{
    if p.cursor.index < p.cursor.count {
        lemma_pattern_len(p.advanced());
    }
}

proof fn lemma_stage_len(st: Stage)
    requires
        st.cursor.index <= st.cursor.count,
    ensures
        st.rest().len() == (st.cursor.count - st.cursor.index) * st.distance,
    decreases st.cursor.count - st.cursor.index,
{
    if st.cursor.index < st.cursor.count {
        lemma_pattern_len(st.item());
        lemma_stage_len(st.advanced());
        assert(st.rest() == st.item().rest() + st.advanced().rest());
        assert(st.item().rest().len() == st.distance);
        let (c, i, d) = (st.cursor.count as int, st.cursor.index as int, st.distance as int);
        assert(st.advanced().cursor.count - st.advanced().cursor.index == c - (i + 1));
        assert(st.advanced().rest().len() == (c - (i + 1)) * d);
        assert((c - i) * d == d + (c - (i + 1)) * d) by (nonlinear_arith);
    } else {
        let (c, i, d) = (st.cursor.count as int, st.cursor.index as int, st.distance as int);
        assert((c - i) * d == 0) by (nonlinear_arith)
            requires
                c == i,
        ;
    }
}

proof fn lemma_block_len(b: Block)
    requires
        b.group_index + 1 < usize::BITS,
        b.cursor.count == b.group_index + 1,
        b.cursor.index <= b.cursor.count,
    ensures
        b.rest().len() == block_len(b.group_index as nat, b.cursor.index as nat),
    decreases b.cursor.count - b.cursor.index,
{
    let g = b.group_index as nat;
    let k = b.cursor.index as nat;
    lemma2_to64();
    if k < g + 1 {
        let st = b.item();
        lemma_usize_pow2_no_overflow((g - k) as nat);
        lemma_usize_pow2_no_overflow(k);
        lemma_stage_split(g, k);
        lemma_pow2_adds((g - k) as nat, k);
        assert(((g - k) as nat + k) as nat == g);
        assert(pattern_count(k) <= pow2(k));
        lemma_stage_len(st);
        lemma_block_len(b.advanced());
        let p = pow2(g) as int;
        let q = pow2((g - k) as nat) as int;
        let len1 = block_len(g, k + 1);
        if k == 0 {
            assert((g - k) as nat == g);
            assert(st.cursor.count == 1 && st.cursor.index == 0 && st.distance == p);
            assert(st.rest().len() == p) by (nonlinear_arith)
                requires
                    st.rest().len() == (1 - 0) * st.distance,
                    st.distance == p,
            ;
            assert(len1 == g * p - p + 1) by (nonlinear_arith)
                requires
                    len1 == (g + 1 - 1) * p - pow2(g) + 1,
                    p == pow2(g),
            ;
            assert(p + len1 == g * p + 1);
        } else {
            lemma_pow2_unfold((g + 1 - k) as nat);
            assert(st.rest().len() == p - q) by (nonlinear_arith)
                requires
                    st.rest().len() == (pow2(k) - 1) * q,
                    p == q * pow2(k),
            ;
            if k + 1 <= g {
                lemma_pow2_unfold((g - k) as nat);
            }
            assert(len1 == (g - k) * p - q + 1);
            assert(p - q + len1 == (g + 1 - k) * p - pow2((g + 1 - k) as nat) + 1) by (nonlinear_arith)
                requires
                    len1 == (g - k) * p - q + 1,
                    pow2((g + 1 - k) as nat) == 2 * q,
            ;
        }
    } else {
        assert(((g + 1 - k) as nat) == 0);
    }
}

proof fn lemma_group_len(gr: Group)
    requires
        gr.group_index + 1 < usize::BITS,
        gr.cursor.index <= gr.cursor.count,
    ensures
        gr.rest().len() == (gr.cursor.count - gr.cursor.index) * (gr.group_index * pow2(gr.group_index as nat) + 1),
    decreases gr.cursor.count - gr.cursor.index,
{
    if gr.cursor.index < gr.cursor.count {
        lemma_block_len(gr.item());
        lemma_group_len(gr.advanced());
        assert(gr.rest() == gr.item().rest() + gr.advanced().rest());
        assert(gr.item().rest().len() == gr.group_index * pow2(gr.group_index as nat) + 1);
        let (c, i, x) = (gr.cursor.count as int, gr.cursor.index as int, gr.group_index * pow2(gr.group_index as nat) + 1);
        assert(gr.advanced().cursor.count - gr.advanced().cursor.index == c - (i + 1));
        assert(gr.advanced().rest().len() == (c - (i + 1)) * x);
        assert((c - i) * x == x + (c - (i + 1)) * x) by (nonlinear_arith);
    } else {
        let (c, i, x) = (gr.cursor.count as int, gr.cursor.index as int, gr.group_index * pow2(gr.group_index as nat) + 1);
        assert((c - i) * x == 0) by (nonlinear_arith)
            requires
                c == i,
        ;
    }
}

proof fn lemma_network_len(net: Network)
    requires
        1 <= net.order < usize::BITS,
        net.cursor.count == net.order,
        net.cursor.index <= net.cursor.count,
    ensures
        ({
            let o = net.order as int;
            let k = net.cursor.index as int;
            2 * net.rest().len() == pow2((o - 1) as nat) * (o * (o - 1) - k * (k - 1)) + 2 * (pow2((o - k) as nat) - 1)
        }),
    decreases net.cursor.count - net.cursor.index,
{
    let o = net.order as nat;
    let k = net.cursor.index as nat;
    lemma2_to64();
    if k < o {
        let gr = net.item();
        lemma_usize_pow2_no_overflow((o - k - 1) as nat);
        lemma_usize_pow2_no_overflow(o);
        lemma_group_len(gr);
        lemma_network_len(net.advanced());
        lemma_pow2_adds((o - k - 1) as nat, k);
        assert(((o - k - 1) as nat + k) as nat == (o - 1) as nat);
        lemma_pow2_unfold((o - k) as nat);
        assert(((o - k) - 1) as nat == (o - k - 1) as nat);
        let p = pow2((o - 1) as nat) as int;
        let q = pow2((o - k - 1) as nat) as int;
        let pk = pow2(k) as int;
        let x = gr.rest().len() as int;
        let y = net.advanced().rest().len() as int;
        assert(x == k * p + q) by (nonlinear_arith)
            requires
                x == q * (k * pk + 1),
                q * pk == p,
        ;
        assert(2 * (x + y) == p * (o * (o - 1) - k * (k - 1)) + 2 * (pow2((o - k) as nat) - 1)) by (nonlinear_arith)
            requires
                x == k * p + q,
                2 * y == p * (o * (o - 1) - (k + 1) * k) + 2 * (q - 1),
                pow2((o - k) as nat) == 2 * q,
        ;
    } else {
        assert((o - k) as nat == 0);
    }
}

/// The schedule of order `order` holds Batcher's count of pairs for width
/// `2^order`.
pub proof fn lemma_pair_count(order: usize)
    requires
        order < usize::BITS,
    ensures
        Network::spec_new(order).rest().len() == batcher_count(order as nat),
{
    let o = order as nat;
    lemma2_to64();
    let len = Network::spec_new(order).rest().len() as int;
    if o == 0 {
        assert((0nat * 0nat - 0nat + 4) * pow2(0) == 4);
        assert(batcher_count(0) == 0);
    } else {
        lemma_network_len(Network::spec_new(order));
        lemma_pow2_unfold(o);
        let p = pow2((o - 1) as nat) as int;
        assert((o * o - o + 4) * pow2(o) == 4 * (len + 1)) by (nonlinear_arith)
            requires
                2 * len == p * (o * (o - 1) - 0) + 2 * (pow2(o) - 1),
                pow2(o) == 2 * p,
        ;
        assert(((o * o - o + 4) * pow2(o)) as int / 4 == len + 1);
    }
}

} // verus!
