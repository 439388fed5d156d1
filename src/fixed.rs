//! The fixed-size executor: a network of order `o` sorts both halves with the
//! network of order `o - 1`, then applies the merge of its last group, stage by
//! stage, from each stage's meta-pattern.
use crate::exchange::{
    apply_pairs, compare_exchange, lemma_apply_concat, lemma_apply_cons, lemma_apply_multiset,
    lemma_apply_sorted, sorted,
};
use crate::generate::{lemma_shl_one, Block, Group, MetaPattern, Stage};
use crate::{FixedSizeSortingNetwork, SortError, SortingNetworkTrait};
use vstd::arithmetic::power2::{lemma2_to64, lemma_pow2_unfold, pow2};
use vstd::prelude::*;

verus! {

/// The last group of the network of order `order`: the one merge of its two
/// halves.
pub open spec fn last_group(order: nat) -> Group {
    Group::spec_new(pow2(order) as usize, (order - 1) as usize, 1)
}

/// What the network of order `order` does to `s[start .. start + 2^order)`.
pub open spec fn fixed_spec(s: Seq<u64>, start: int, order: nat) -> Seq<u64>
    decreases order,
{
    if order == 0 {
        s
    } else {
        let o = (order - 1) as nat;
        let h = pow2(o) as int;
        apply_pairs(fixed_spec(fixed_spec(s, start, o), start + h, o), last_group(order).rest(), start)
    }
}

/// The network of any order only reorders: what comes out holds each item as
/// often as what went in.
pub proof fn lemma_fixed_permutes(s: Seq<u64>, start: int, order: nat)
    ensures
        fixed_spec(s, start, order).to_multiset() == s.to_multiset(),
        fixed_spec(s, start, order).len() == s.len(),
    decreases order,
{
    if order > 0 {
        let o = (order - 1) as nat;
        let s1 = fixed_spec(s, start, o);
        let s2 = fixed_spec(s1, start + pow2(o), o);
        lemma_fixed_permutes(s, start, o);
        lemma_fixed_permutes(s1, start + pow2(o), o);
        lemma_apply_multiset(s2, last_group(order).rest(), start);
    }
}

/// The network of any order leaves an ascending buffer as it is.
pub proof fn lemma_fixed_idempotent(s: Seq<u64>, start: int, order: nat)
    requires
        sorted(s),
    ensures
        fixed_spec(s, start, order) == s,
    decreases order,
{
    if order > 0 {
        let o = (order - 1) as nat;
        lemma_fixed_idempotent(s, start, o);
        lemma_fixed_idempotent(s, start + pow2(o), o);
        lemma_apply_sorted(s, last_group(order).rest(), start);
    }
}

/// Applies every pair of one stage, regenerated from its meta-pattern.
fn apply_meta(v: &mut Vec<u64>, start: usize, meta: MetaPattern, Ghost(st): Ghost<Stage>)
    requires
        st.wf(),
        st.cursor.index == 0,
        meta == (MetaPattern { start: st.offset, count: st.cursor.count, length: st.distance }),
        start + st.offset + 2 * st.distance * st.cursor.count <= old(v).len(),
    ensures
        final(v)@ == apply_pairs(old(v)@, st.rest(), start as int),
        final(v).len() == old(v).len(),
{
    let ghost target = apply_pairs(v@, st.rest(), start as int);
    let ghost len0 = v.len();
    let ghost d = st.distance as int;
    let ghost c = st.cursor.count as int;
    let gap = 2 * meta.length;
    let mut i: usize = 0;
    let ghost mut it = st;
    while i < meta.count
        invariant
            it == (Stage { cursor: it.cursor, ..st }),
            it.cursor.index == i,
            it.cursor.count == c,
            c == st.cursor.count,
            d == st.distance,
            v.len() == len0,
            i <= c,
            gap == 2 * d,
            meta == (MetaPattern { start: st.offset, count: st.cursor.count, length: st.distance }),
            st.wf(),
            start + st.offset + 2 * d * c <= v.len(),
            apply_pairs(v@, it.rest(), start as int) == target,
        decreases c - i,
    {
        assert(i * gap + gap <= 2 * d * c) by (nonlinear_arith)
            requires
                gap == 2 * d,
                i < c,
                d > 0,
        ;
        let offset = i * gap;
        let ghost pat = it.item();
        let ghost after = it.advanced().rest();
        assert(it.rest() == pat.rest() + after);
        assert(pat.min == st.offset + offset && pat.max == pat.min + d);
        let mut j: usize = 0;
        let ghost mut pit = pat;
        while j < meta.length
            invariant
                pit == (crate::generate::Pattern { cursor: pit.cursor, ..pat }),
                pit.cursor.index == j,
                pit.cursor.count == d,
                c == st.cursor.count,
                d == st.distance,
                d > 0,
                v.len() == len0,
                j <= d,
                pat == it.item(),
                pat.min == st.offset + offset,
                pat.max == pat.min + d,
                offset + gap <= 2 * d * c,
                gap == 2 * d,
                meta == (MetaPattern { start: st.offset, count: st.cursor.count, length: st.distance }),
                start + st.offset + 2 * d * c <= v.len(),
                apply_pairs(v@, pit.rest() + after, start as int) == target,
            decreases d - j,
        {
            let min = start + meta.start + offset + j;
            let max = min + meta.length;
            let ghost p = pit.item();
            assert(p.min == min - start && p.max == max - start);
            proof {
                assert(pit.rest() == seq![p] + pit.advanced().rest());
                assert(pit.rest() + after =~= seq![p] + (pit.advanced().rest() + after));
                lemma_apply_cons(v@, p, pit.advanced().rest() + after, start as int);
            }
            compare_exchange(v, min, max);
            j += 1;
            proof {
                pit = pit.advanced();
            }
        }
        assert(pit.rest() + after =~= after);
        i += 1;
        proof {
            it = it.advanced();
        }
    }
    assert(it.rest() =~= Seq::empty());
}

/// Applies every pair of one block, stage by stage.
fn apply_block(v: &mut Vec<u64>, start: usize, block: Block)
    requires
        block.wf(),
        start + block.offset + pow2((block.group_index + 1) as nat) <= old(v).len(),
    ensures
        final(v)@ == apply_pairs(old(v)@, block.rest(), start as int),
        final(v).len() == old(v).len(),
{
    let ghost target = apply_pairs(v@, block.rest(), start as int);
    let ghost len0 = v.len();
    let mut it = block;
    loop
        invariant
            it.wf(),
            it.offset == block.offset,
            it.group_index == block.group_index,
            start + block.offset + pow2((block.group_index + 1) as nat) <= v.len(),
            apply_pairs(v@, it.rest(), start as int) == target,
            v.len() == len0,
        ensures
            v@ == target,
            v.len() == len0,
        decreases it.cursor.count - it.cursor.index,
    {
        let ghost before = it;
        match it.next() {
            None => {
                assert(it.rest() =~= Seq::empty());
                break;
            },
            Some(stage) => {
                let ghost s0 = v@;
                apply_meta(v, start, stage.meta_pattern(), Ghost(stage));
                proof {
                    assert(before.rest() == stage.rest() + it.rest());
                    lemma_apply_concat(s0, stage.rest(), it.rest(), start as int);
                }
            },
        }
    }
}

/// Applies the last group of the network of order `order` to
/// `v[start .. start + 2^order)`.
fn merge_last_group(v: &mut Vec<u64>, start: usize, order: usize)
    requires
        1 <= order < usize::BITS,
        start + pow2(order as nat) <= old(v).len(),
    ensures
        final(v)@ == apply_pairs(old(v)@, last_group(order as nat).rest(), start as int),
        final(v).len() == old(v).len(),
{
    proof {
        lemma_shl_one(order);
    }
    let ghost target = apply_pairs(v@, last_group(order as nat).rest(), start as int);
    let ghost len0 = v.len();
    let mut it = Group::new(1 << order, order - 1, 1);
    assert(it == last_group(order as nat));
    loop
        invariant
            it.wf(),
            it.length == pow2(order as nat),
            start + pow2(order as nat) <= v.len(),
            apply_pairs(v@, it.rest(), start as int) == target,
            v.len() == len0,
        ensures
            v@ == target,
            v.len() == len0,
        decreases it.cursor.count - it.cursor.index,
    {
        let ghost before = it;
        match it.next() {
            None => {
                assert(it.rest() =~= Seq::empty());
                break;
            },
            Some(block) => {
                let ghost s0 = v@;
                apply_block(v, start, block);
                proof {
                    assert(before.rest() == block.rest() + it.rest());
                    lemma_apply_concat(s0, block.rest(), it.rest(), start as int);
                }
            },
        }
    }
}

/// Sorts `v[start .. start + 2^order)` with the network of order `order`.
fn sort_fixed(v: &mut Vec<u64>, start: usize, order: usize)
    requires
        order < usize::BITS,
        start + pow2(order as nat) <= old(v).len(),
    ensures
        final(v)@ == fixed_spec(old(v)@, start as int, order as nat),
        final(v).len() == old(v).len(),
    decreases order,
{
    if order == 0 {
        return;
    }
    proof {
        lemma_shl_one((order - 1) as usize);
        lemma_pow2_unfold(order as nat);
    }
    let half: usize = 1 << (order - 1);
    sort_fixed(v, start, order - 1);
    sort_fixed(v, start + half, order - 1);
    merge_last_group(v, start, order);
}

/// Sorts `v` with the network of order `order`; any length but `2^order` is
/// refused and leaves `v` as it was.
pub fn sort_by_order(v: &mut Vec<u64>, order: usize) -> (r: Result<(), SortError>)
    requires
        order < usize::BITS,
    ensures
        r is Ok <==> old(v)@.len() == pow2(order as nat),
        r is Ok ==> final(v)@ == fixed_spec(old(v)@, 0, order as nat),
        r is Ok ==> sorted(final(v)@) && final(v)@.to_multiset() == old(v)@.to_multiset(),
        r is Err ==> r == Err::<(), SortError>(SortError::InvalidLength) && final(v)@ == old(v)@,
{
    proof {
        lemma_shl_one(order);
    }
    let width: usize = 1 << order;
    if v.len() != width {
        return Err(SortError::InvalidLength);
    }
    sort_fixed(v, 0, order);
    proof {
        lemma_fixed_permutes(old(v)@, 0, order as nat);
        crate::stages::lemma_fixed_sorts(old(v)@, order);
    }
    Ok(())
}

/// The widths of the sorters below.
proof fn lemma_pow2_values()
    ensures
        pow2(0) == 1,
        pow2(1) == 2,
        pow2(2) == 4,
        pow2(3) == 8,
        pow2(4) == 16,
        pow2(5) == 32,
        pow2(6) == 64,
        pow2(7) == 128,
        pow2(8) == 256,
{
    lemma2_to64();
}

/// Sorter for buffers of exactly 1 item.
#[derive(Clone, Copy, Debug)]
pub struct SortingNetwork1;

impl SortingNetwork1 {
    pub fn new() -> (r: Self) {
        SortingNetwork1
    }
}

impl FixedSizeSortingNetwork for SortingNetwork1 {
    open spec fn spec_order() -> nat {
        0
    }

    fn order() -> (r: usize) {
        0
    }
}

impl SortingNetworkTrait for SortingNetwork1 {
    open spec fn accepts(&self, len: nat) -> bool {
        len == 1
    }

    open spec fn output(&self, s: Seq<u64>) -> Seq<u64> {
        fixed_spec(s, 0, 0)
    }

    fn sort(&self, v: &mut Vec<u64>) -> (r: Result<(), SortError>) {
        proof {
            lemma_pow2_values();
        }
        sort_by_order(v, 0)
    }
}

/// Sorter for buffers of exactly 2 items.
#[derive(Clone, Copy, Debug)]
pub struct SortingNetwork2;

impl SortingNetwork2 {
    pub fn new() -> (r: Self) {
        SortingNetwork2
    }
}

impl FixedSizeSortingNetwork for SortingNetwork2 {
    open spec fn spec_order() -> nat {
        1
    }

    fn order() -> (r: usize) {
        1
    }
}

impl SortingNetworkTrait for SortingNetwork2 {
    open spec fn accepts(&self, len: nat) -> bool {
        len == 2
    }

    open spec fn output(&self, s: Seq<u64>) -> Seq<u64> {
        fixed_spec(s, 0, 1)
    }

    fn sort(&self, v: &mut Vec<u64>) -> (r: Result<(), SortError>) {
        proof {
            lemma_pow2_values();
        }
        sort_by_order(v, 1)
    }
}

/// Sorter for buffers of exactly 4 items.
#[derive(Clone, Copy, Debug)]
pub struct SortingNetwork4;

impl SortingNetwork4 {
    pub fn new() -> (r: Self) {
        SortingNetwork4
    }
}

impl FixedSizeSortingNetwork for SortingNetwork4 {
    open spec fn spec_order() -> nat {
        2
    }

    fn order() -> (r: usize) {
        2
    }
}

impl SortingNetworkTrait for SortingNetwork4 {
    open spec fn accepts(&self, len: nat) -> bool {
        len == 4
    }

    open spec fn output(&self, s: Seq<u64>) -> Seq<u64> {
        fixed_spec(s, 0, 2)
    }

    fn sort(&self, v: &mut Vec<u64>) -> (r: Result<(), SortError>) {
        proof {
            lemma_pow2_values();
        }
        sort_by_order(v, 2)
    }
}

/// Sorter for buffers of exactly 8 items.
#[derive(Clone, Copy, Debug)]
pub struct SortingNetwork8;

impl SortingNetwork8 {
    pub fn new() -> (r: Self) {
        SortingNetwork8
    }
}

impl FixedSizeSortingNetwork for SortingNetwork8 {
    open spec fn spec_order() -> nat {
        3
    }

    fn order() -> (r: usize) {
        3
    }
}

impl SortingNetworkTrait for SortingNetwork8 {
    open spec fn accepts(&self, len: nat) -> bool {
        len == 8
    }

    open spec fn output(&self, s: Seq<u64>) -> Seq<u64> {
        fixed_spec(s, 0, 3)
    }

    fn sort(&self, v: &mut Vec<u64>) -> (r: Result<(), SortError>) {
        proof {
            lemma_pow2_values();
        }
        sort_by_order(v, 3)
    }
}

/// Sorter for buffers of exactly 16 items.
#[derive(Clone, Copy, Debug)]
pub struct SortingNetwork16;

impl SortingNetwork16 {
    pub fn new() -> (r: Self) {
        SortingNetwork16
    }
}

impl FixedSizeSortingNetwork for SortingNetwork16 {
    open spec fn spec_order() -> nat {
        4
    }

    fn order() -> (r: usize) {
        4
    }
}

impl SortingNetworkTrait for SortingNetwork16 {
    open spec fn accepts(&self, len: nat) -> bool {
        len == 16
    }

    open spec fn output(&self, s: Seq<u64>) -> Seq<u64> {
        fixed_spec(s, 0, 4)
    }

    fn sort(&self, v: &mut Vec<u64>) -> (r: Result<(), SortError>) {
        proof {
            lemma_pow2_values();
        }
        sort_by_order(v, 4)
    }
}

/// Sorter for buffers of exactly 32 items.
#[derive(Clone, Copy, Debug)]
pub struct SortingNetwork32;

impl SortingNetwork32 {
    pub fn new() -> (r: Self) {
        SortingNetwork32
    }
}

impl FixedSizeSortingNetwork for SortingNetwork32 {
    open spec fn spec_order() -> nat {
        5
    }

    fn order() -> (r: usize) {
        5
    }
}

impl SortingNetworkTrait for SortingNetwork32 {
    open spec fn accepts(&self, len: nat) -> bool {
        len == 32
    }

    open spec fn output(&self, s: Seq<u64>) -> Seq<u64> {
        fixed_spec(s, 0, 5)
    }

    fn sort(&self, v: &mut Vec<u64>) -> (r: Result<(), SortError>) {
        proof {
            lemma_pow2_values();
        }
        sort_by_order(v, 5)
    }
}

/// Sorter for buffers of exactly 64 items.
#[derive(Clone, Copy, Debug)]
pub struct SortingNetwork64;

impl SortingNetwork64 {
    pub fn new() -> (r: Self) {
        SortingNetwork64
    }
}

impl FixedSizeSortingNetwork for SortingNetwork64 {
    open spec fn spec_order() -> nat {
        6
    }

    fn order() -> (r: usize) {
        6
    }
}

impl SortingNetworkTrait for SortingNetwork64 {
    open spec fn accepts(&self, len: nat) -> bool {
        len == 64
    }

    open spec fn output(&self, s: Seq<u64>) -> Seq<u64> {
        fixed_spec(s, 0, 6)
    }

    fn sort(&self, v: &mut Vec<u64>) -> (r: Result<(), SortError>) {
        proof {
            lemma_pow2_values();
        }
        sort_by_order(v, 6)
    }
}

/// Sorter for buffers of exactly 128 items.
#[derive(Clone, Copy, Debug)]
pub struct SortingNetwork128;

impl SortingNetwork128 {
    pub fn new() -> (r: Self) {
        SortingNetwork128
    }
}

impl FixedSizeSortingNetwork for SortingNetwork128 {
    open spec fn spec_order() -> nat {
        7
    }

    fn order() -> (r: usize) {
        7
    }
}

impl SortingNetworkTrait for SortingNetwork128 {
    open spec fn accepts(&self, len: nat) -> bool {
        len == 128
    }

    open spec fn output(&self, s: Seq<u64>) -> Seq<u64> {
        fixed_spec(s, 0, 7)
    }

    fn sort(&self, v: &mut Vec<u64>) -> (r: Result<(), SortError>) {
        proof {
            lemma_pow2_values();
        }
        sort_by_order(v, 7)
    }
}

/// Sorter for buffers of exactly 256 items.
#[derive(Clone, Copy, Debug)]
pub struct SortingNetwork256;

impl SortingNetwork256 {
    pub fn new() -> (r: Self) {
        SortingNetwork256
    }
}

impl FixedSizeSortingNetwork for SortingNetwork256 {
    open spec fn spec_order() -> nat {
        8
    }

    fn order() -> (r: usize) {
        8
    }
}

impl SortingNetworkTrait for SortingNetwork256 {
    open spec fn accepts(&self, len: nat) -> bool {
        len == 256
    }

    open spec fn output(&self, s: Seq<u64>) -> Seq<u64> {
        fixed_spec(s, 0, 8)
    }

    fn sort(&self, v: &mut Vec<u64>) -> (r: Result<(), SortError>) {
        proof {
            lemma_pow2_values();
        }
        sort_by_order(v, 8)
    }
}

} // verus!
