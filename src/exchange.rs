//! The compare-exchange primitive and its model: what a sequence of pairs
//! does to a buffer.
use crate::generate::Pair;
use vstd::prelude::*;
use vstd::seq_lib::to_multiset_update;

verus! {

/// `s` is in ascending order.
pub open spec fn sorted(s: Seq<u64>) -> bool {
    forall|i: int, j: int| 0 <= i < j < s.len() ==> s[i] <= s[j]
}

/// Compare-exchange at `(i, j)`: when both are in range, `i < j` and the
/// items are out of order, they trade places; otherwise nothing changes.
pub open spec fn cx(s: Seq<u64>, i: int, j: int) -> Seq<u64> {
    if 0 <= i < j < s.len() && s[i] > s[j] {
        s.update(i, s[j]).update(j, s[i])
    } else {
        s
    }
}

/// The pairs `ps`, shifted by `start`, applied in order.
pub open spec fn apply_pairs(s: Seq<u64>, ps: Seq<Pair>, start: int) -> Seq<u64>
    decreases ps.len(),
{
    if ps.len() == 0 {
        s
    } else {
        let p = ps.last();
        cx(apply_pairs(s, ps.drop_last(), start), start + p.min, start + p.max)
    }
}

/// Applying `a + b` is applying `a`, then `b`.
pub proof fn lemma_apply_concat(s: Seq<u64>, a: Seq<Pair>, b: Seq<Pair>, start: int)
    ensures
        apply_pairs(s, a + b, start) == apply_pairs(apply_pairs(s, a, start), b, start),
    decreases b.len(),
{
    if b.len() == 0 {
        assert(a + b =~= a);
    } else {
        assert((a + b).drop_last() =~= a + b.drop_last());
        assert((a + b).last() == b.last());
        lemma_apply_concat(s, a, b.drop_last(), start);
    }
}

/// Applying one pair in front of `b`.
pub proof fn lemma_apply_cons(s: Seq<u64>, p: Pair, b: Seq<Pair>, start: int)
    ensures
        apply_pairs(s, seq![p] + b, start) == apply_pairs(cx(s, start + p.min, start + p.max), b, start),
{
    lemma_apply_concat(s, seq![p], b, start);
    assert(seq![p].drop_last() =~= Seq::<Pair>::empty());
    assert(apply_pairs(s, Seq::<Pair>::empty(), start) == s);
    assert(apply_pairs(s, seq![p], start) == cx(s, start + p.min, start + p.max));
}

/// A compare-exchange only reorders.
pub proof fn lemma_cx_multiset(s: Seq<u64>, i: int, j: int)
    ensures
        cx(s, i, j).to_multiset() == s.to_multiset(),
        cx(s, i, j).len() == s.len(),
{
    if 0 <= i < j < s.len() && s[i] > s[j] {
        broadcast use vstd::multiset::group_multiset_axioms, vstd::seq_lib::group_to_multiset_ensures;

        let t = s.update(i, s[j]);
        to_multiset_update(s, i, s[j]);
        to_multiset_update(t, j, s[i]);
        assert(t[j] == s[j]);
        assert(s.contains(s[i]));
        assert(s.to_multiset().count(s[i]) > 0);
        assert(s.to_multiset().insert(s[j]).remove(s[i]).insert(s[i]).remove(s[j]) =~= s.to_multiset());
    }
}

/// Any sequence of pairs only reorders.
pub proof fn lemma_apply_multiset(s: Seq<u64>, ps: Seq<Pair>, start: int)
    ensures
        apply_pairs(s, ps, start).to_multiset() == s.to_multiset(),
        apply_pairs(s, ps, start).len() == s.len(),
    decreases ps.len(),
{
    if ps.len() > 0 {
        let p = ps.last();
        lemma_apply_multiset(s, ps.drop_last(), start);
        lemma_cx_multiset(apply_pairs(s, ps.drop_last(), start), start + p.min, start + p.max);
    }
}

/// Any sequence of pairs leaves an ascending sequence as it is.
pub proof fn lemma_apply_sorted(s: Seq<u64>, ps: Seq<Pair>, start: int)
    requires
        sorted(s),
    ensures
        apply_pairs(s, ps, start) == s,
    decreases ps.len(),
{
    if ps.len() > 0 {
        lemma_apply_sorted(s, ps.drop_last(), start);
    }
}

/// Puts `v[lhs]` and `v[rhs]` in order, without a branch on the data: the
/// smaller is written at `lhs`, the larger at `rhs`; equal items stay.
pub fn compare_exchange(v: &mut Vec<u64>, lhs: usize, rhs: usize)
    requires
        lhs < rhs < old(v).len(),
    ensures
        final(v)@ == cx(old(v)@, lhs as int, rhs as int),
        final(v).len() == old(v).len(),
{
    let a = v[lhs];
    let b = v[rhs];
    let is_ordered = a < b;
    let min = if is_ordered { a } else { b };
    let max = if is_ordered { b } else { a };
    v.set(lhs, min);
    v.set(rhs, max);
    assert(v@ =~= cx(old(v)@, lhs as int, rhs as int));
}

} // verus!
