//! Lazy enumeration of the compare-exchange schedule of an odd-even merge
//! network: groups, blocks, stages, patterns and pairs, each level a cursor
//! over the next one down.
use vstd::arithmetic::power2::{lemma2_to64, lemma_pow2_adds, lemma_pow2_pos, lemma_pow2_unfold, pow2};
use vstd::bits::{lemma_usize_pow2_no_overflow, lemma_usize_shl_is_mul};
use vstd::prelude::*;

verus! {

/// `1 << e` is `2^e`, and fits.
pub proof fn lemma_shl_one(e: usize)
    requires
        e < usize::BITS,
    ensures
        (1usize << e) == pow2(e as nat),
        0 < pow2(e as nat) <= usize::MAX,
{
    lemma_usize_pow2_no_overflow(e as nat);
    lemma_usize_shl_is_mul(1, e);
}

/// The width of a merge is the distance of its stage `s` times `2^(s + 1)`.
pub proof fn lemma_stage_split(g: nat, s: nat)
    requires
        s <= g,
    ensures
        pow2(g + 1) == 2 * pow2((g - s) as nat) * pow2(s),
        pow2(g + 1) == pow2((g - s) as nat) * pow2(s + 1),
        pow2(s + 1) == 2 * pow2(s),
        pow2((g - s) as nat) > 0,
        pow2(s) > 0,
        s > 0 ==> pow2(s) >= 2,
        pattern_count(s) >= 1,
{
    lemma_pow2_adds((g - s) as nat, s + 1);
    assert(((g - s) as nat + (s + 1)) as nat == g + 1);
    lemma_pow2_unfold(s + 1);
    lemma_pow2_pos(s);
    lemma_pow2_pos((g - s) as nat);
    if s > 0 {
        lemma_pow2_unfold(s);
        lemma_pow2_pos((s - 1) as nat);
    }
    assert(pow2(g + 1) == 2 * pow2((g - s) as nat) * pow2(s)) by (nonlinear_arith)
        requires
            pow2(g + 1) == pow2((g - s) as nat) * pow2(s + 1),
            pow2(s + 1) == 2 * pow2(s),
    ;
}

/// Position of a single-pass walk over `count` items.
#[derive(Clone, Copy, Debug, PartialEq, Eq, Structural)]
pub struct Cursor {
    pub index: usize,
    pub count: usize,
}

impl Cursor {
    pub open spec fn exhausted(self) -> bool {
        self.index >= self.count
    }

    pub open spec fn advanced(self) -> Cursor {
        Cursor { index: (self.index + 1) as usize, count: self.count }
    }

    pub fn new(index: usize, count: usize) -> (r: Self)
        ensures
            r == (Cursor { index, count }),
    {
        Cursor { index, count }
    }
}

/// One compare-exchange: `buffer[min]` and `buffer[max]` end in order.
#[derive(Clone, Copy, Debug, PartialEq, Eq, Structural)]
pub struct Pair {
    /// Index of min element
    pub min: usize,
    /// Index of max element
    pub max: usize,
}

impl Pair {
    pub fn new(min: usize, max: usize) -> (r: Self)
        ensures
            r == (Pair { min, max }),
    {
        Pair { min, max }
    }
}

/// `count` pairs `(min + k, max + k)`.
#[derive(Clone, Copy, Debug, PartialEq, Eq, Structural)]
pub struct Pattern {
    pub min: usize,
    pub max: usize,
    pub cursor: Cursor,
}

impl Pattern {
    pub open spec fn spec_new(min: usize, max: usize, count: usize) -> Pattern {
        Pattern { min, max, cursor: Cursor { index: 0, count } }
    }

    pub open spec fn wf(self) -> bool {
        &&& self.min < self.max
        &&& self.max + self.cursor.count <= usize::MAX
        &&& self.cursor.index <= self.cursor.count
    }

    /// The pair at the cursor.
    pub open spec fn item(self) -> Pair {
        Pair { min: (self.min + self.cursor.index) as usize, max: (self.max + self.cursor.index) as usize }
    }

    pub open spec fn advanced(self) -> Pattern {
        Pattern { cursor: self.cursor.advanced(), ..self }
    }

    /// The pairs still to come.
    pub open spec fn rest(self) -> Seq<Pair>
        decreases self.cursor.count - self.cursor.index,
    {
        if self.cursor.index < self.cursor.count {
            seq![self.item()] + self.advanced().rest()
        } else {
            seq![]
        }
    }

    pub fn new(min: usize, max: usize, count: usize) -> (r: Self)
        ensures
            r == Pattern::spec_new(min, max, count),
    {
        let cursor = Cursor::new(0, count);
        Pattern { min, max, cursor }
    }

    /// Appends the pairs still to come, in order.
    pub fn append_to(self, out: &mut Vec<Pair>)
        requires
            self.wf(),
        ensures
            final(out)@ == old(out)@ + self.rest(),
    {
        let ghost start = old(out)@;
        let mut it = self;
        loop
            invariant
                it.wf(),
                out@ + it.rest() == start + self.rest(),
            ensures
                out@ == start + self.rest(),
            decreases it.cursor.count - it.cursor.index,
        {
            let ghost before = it;
            match it.next() {
                None => {
                    assert(out@ + it.rest() =~= out@);
                    break;
                },
                Some(pair) => {
                    let ghost done = out@;
                    out.push(pair);
                    assert(before.rest() == seq![pair] + it.rest());
                    assert(out@ + it.rest() =~= done + before.rest());
                },
            }
        }
    }

    pub fn pairs(&self) -> (r: usize)
        ensures
            r == self.cursor.count,
    {
        self.cursor.count
    }

    pub fn next(&mut self) -> (r: Option<Pair>)
        requires
            old(self).wf(),
        ensures
            final(self).wf(),
            old(self).cursor.exhausted() ==> r is None && *final(self) == *old(self),
            !old(self).cursor.exhausted() ==> r == Some(old(self).item()) && *final(self) == old(self).advanced(),
            r matches Some(p) ==> p.min < p.max,
    {
        if self.cursor.index >= self.cursor.count {
            return None;
        }
        let offset = self.cursor.index;
        self.cursor.index += 1;
        let min = self.min + offset;
        let max = self.max + offset;
        Some(Pair::new(min, max))
    }
}

/// The compact description of a stage: `count` patterns of `length` pairs,
/// the first starting at `start`.
#[derive(Clone, Copy, Debug, PartialEq, Eq, Structural)]
pub struct MetaPattern {
    /// The first sub-pattern's lower index
    pub start: usize,
    /// The number of sub-patterns
    pub count: usize,
    /// The length of sub-patterns
    pub length: usize,
}

/// Number of patterns in stage `s` of a merge.
pub open spec fn pattern_count(s: nat) -> nat {
    if s == 0 {
        1
    } else {
        (pow2(s) - 1) as nat
    }
}

/// All comparisons of one distance within a merge.
#[derive(Clone, Copy, Debug, PartialEq, Eq, Structural)]
pub struct Stage {
    pub distance: usize,
    pub offset: usize,
    pub cursor: Cursor,
}

impl Stage {
    pub open spec fn spec_new(group_index: nat, stage_index: nat, offset: usize) -> Stage {
        Stage {
            distance: pow2((group_index - stage_index) as nat) as usize,
            offset,
            cursor: Cursor { index: 0, count: pattern_count(stage_index) as usize },
        }
    }

    pub open spec fn wf(self) -> bool {
        &&& self.distance > 0
        &&& self.offset + 2 * self.distance * self.cursor.count <= usize::MAX
        &&& 2 * self.distance <= usize::MAX
        &&& self.cursor.index <= self.cursor.count
    }

    /// The pattern at the cursor.
    pub open spec fn item(self) -> Pattern {
        let min = self.offset + self.cursor.index * (2 * self.distance);
        Pattern::spec_new(min as usize, (min + self.distance) as usize, self.distance)
    }

    pub open spec fn advanced(self) -> Stage {
        Stage { cursor: self.cursor.advanced(), ..self }
    }

    /// The pairs still to come.
    pub open spec fn rest(self) -> Seq<Pair>
        decreases self.cursor.count - self.cursor.index,
    {
        if self.cursor.index < self.cursor.count {
            self.item().rest() + self.advanced().rest()
        } else {
            seq![]
        }
    }

    pub fn new(group_index: usize, stage_index: usize, offset: usize) -> (r: Self)
        requires
            group_index + 1 < usize::BITS,
            stage_index <= group_index,
            offset + 2 * pow2((group_index - stage_index) as nat) * pattern_count(stage_index as nat)
                <= usize::MAX,
        ensures
            r == Stage::spec_new(group_index as nat, stage_index as nat, offset),
            r.wf(),
            r.distance == pow2((group_index - stage_index) as nat),
            r.cursor.count == pattern_count(stage_index as nat),
    {
        let ghost g = group_index as nat;
        let ghost s = stage_index as nat;
        let ghost d = pow2((g - s) as nat);
        let ghost top: int = if s == 0 { 2 } else { pow2(s + 1) - 1 };
        proof {
            lemma_shl_one((group_index - stage_index) as usize);
            lemma_shl_one((group_index + 1) as usize);
            lemma_stage_split(g, s);
            lemma2_to64();
        }
        let mut patterns: usize = 0;
        let distance: usize = 1 << (group_index - stage_index);
        let mut i: usize = 1 << (group_index + 1);
        assert(i == d * 2 * pow2(s) && d <= i) by (nonlinear_arith)
            requires
                i == pow2(g + 1),
                pow2(g + 1) == d * pow2(s + 1),
                pow2(s + 1) == 2 * pow2(s),
                pow2(s) > 0,
                d > 0,
        ;
        if stage_index > 0 {
            i -= distance;
        }
        assert(i == d * top) by (nonlinear_arith)
            requires
                s == 0 ==> i == d * 2,
                s > 0 ==> i == d * 2 * pow2(s) - d,
                top == if s == 0 { 2 } else { pow2(s + 1) - 1 },
                pow2(s + 1) == 2 * pow2(s),
        ;
        assert(top <= i) by (nonlinear_arith)
            requires
                i == d * top,
                d > 0,
                top > 0,
        ;
        while i > distance
            invariant
                distance == d,
                d > 0,
                i == d * (top - 2 * patterns),
                top - 2 * patterns >= 0,
                patterns <= top,
                top <= usize::MAX,
            decreases i,
        {
            assert(i >= 2 * distance && top - 2 * patterns >= 2) by (nonlinear_arith)
                requires
                    i == d * (top - 2 * patterns),
                    i > d,
                    d > 0,
                    distance == d,
                    top - 2 * patterns >= 0,
            ;
            patterns += 1;
            assert(i - 2 * distance == d * (top - 2 * patterns)) by (nonlinear_arith)
                requires
                    i == d * (top - 2 * (patterns - 1)),
                    distance == d,
            ;
            i -= 2 * distance;
        }
        assert(top - 2 * patterns <= 1) by (nonlinear_arith)
            requires
                i == d * (top - 2 * patterns),
                i <= d,
                d > 0,
        ;
        assert(patterns == pattern_count(s));
        let cursor = Cursor::new(0, patterns);
        assert(2 * d <= 2 * d * patterns) by (nonlinear_arith)
            requires
                patterns >= 1,
                d > 0,
        ;
        Stage { distance, offset, cursor }
    }

    /// Appends the pairs still to come, in order.
    pub fn append_to(self, out: &mut Vec<Pair>)
        requires
            self.wf(),
        ensures
            final(out)@ == old(out)@ + self.rest(),
    {
        let ghost start = old(out)@;
        let mut it = self;
        loop
            invariant
                it.wf(),
                out@ + it.rest() == start + self.rest(),
            ensures
                out@ == start + self.rest(),
            decreases it.cursor.count - it.cursor.index,
        {
            let ghost before = it;
            match it.next() {
                None => {
                    assert(out@ + it.rest() =~= out@);
                    break;
                },
                Some(pattern) => {
                    let ghost done = out@;
                    pattern.append_to(out);
                    assert(before.rest() == pattern.rest() + it.rest());
                    assert(out@ + it.rest() =~= done + before.rest());
                },
            }
        }
    }

    pub fn patterns(&self) -> (r: usize)
        ensures
            r == self.cursor.count,
    {
        self.cursor.count
    }

    pub fn meta_pattern(&self) -> (r: MetaPattern)
        ensures
            r == (MetaPattern { start: self.offset, count: self.cursor.count, length: self.distance }),
    {
        let start = self.offset;
        let count = self.cursor.count;
        let length = self.distance;
        MetaPattern { start, count, length }
    }

    /// The gap between the starts of two neighbouring patterns.
    pub fn distance(&self) -> (r: usize)
        requires
            self.wf(),
        ensures
            r == 2 * self.distance,
    {
        self.distance * 2
    }

    pub fn next(&mut self) -> (r: Option<Pattern>)
        requires
            old(self).wf(),
        ensures
            final(self).wf(),
            old(self).cursor.exhausted() ==> r is None && *final(self) == *old(self),
            !old(self).cursor.exhausted() ==> r == Some(old(self).item()) && *final(self) == old(self).advanced(),
            r matches Some(p) ==> p.wf(),
    {
        if self.cursor.index >= self.cursor.count {
            return None;
        }
        proof {
            let (o, d, k, c) = (self.offset as int, self.distance as int, self.cursor.index as int, self.cursor.count as int);
            assert(o + k * (2 * d) + 2 * d <= o + 2 * d * c) by (nonlinear_arith)
                requires
                    k < c,
                    d > 0,
            ;
        }
        let offset = self.cursor.index * (2 * self.distance);
        self.cursor.index += 1;
        let min = self.offset + offset;
        let max = min + self.distance;
        let count = self.distance;
        Some(Pattern::new(min, max, count))
    }
}

/// One merge of two sorted runs of `2^group_index` items, at `offset`.
#[derive(Clone, Copy, Debug, PartialEq, Eq, Structural)]
pub struct Block {
    pub offset: usize,
    pub group_index: usize,
    pub cursor: Cursor,
}

impl Block {
    pub open spec fn spec_new(offset: usize, group_index: usize) -> Block {
        Block { offset, group_index, cursor: Cursor { index: 0, count: (group_index + 1) as usize } }
    }

    pub open spec fn wf(self) -> bool {
        &&& self.group_index + 1 < usize::BITS
        &&& self.cursor.count == self.group_index + 1
        &&& self.cursor.index <= self.cursor.count
        &&& self.offset + pow2((self.group_index + 1) as nat) <= usize::MAX
    }

    /// The stage at the cursor.
    pub open spec fn item(self) -> Stage {
        let g = self.group_index as nat;
        let st = self.cursor.index as nat;
        let d = pow2((g - st) as nat);
        Stage::spec_new(g, st, if st == 0 { self.offset } else { (self.offset + d) as usize })
    }

    pub open spec fn advanced(self) -> Block {
        Block { cursor: self.cursor.advanced(), ..self }
    }

    /// The pairs still to come.
    pub open spec fn rest(self) -> Seq<Pair>
        decreases self.cursor.count - self.cursor.index,
    {
        if self.cursor.index < self.cursor.count {
            self.item().rest() + self.advanced().rest()
        } else {
            seq![]
        }
    }

    pub fn new(offset: usize, group_index: usize) -> (r: Self)
        requires
            group_index + 1 < usize::BITS,
        ensures
            r == Block::spec_new(offset, group_index),
    {
        let stages = group_index + 1;
        let cursor = Cursor::new(0, stages);
        Block { offset, group_index, cursor }
    }

    /// Appends the pairs still to come, in order.
    pub fn append_to(self, out: &mut Vec<Pair>)
        requires
            self.wf(),
        ensures
            final(out)@ == old(out)@ + self.rest(),
    {
        let ghost start = old(out)@;
        let mut it = self;
        loop
            invariant
                it.wf(),
                out@ + it.rest() == start + self.rest(),
            ensures
                out@ == start + self.rest(),
            decreases it.cursor.count - it.cursor.index,
        {
            let ghost before = it;
            match it.next() {
                None => {
                    assert(out@ + it.rest() =~= out@);
                    break;
                },
                Some(stage) => {
                    let ghost done = out@;
                    stage.append_to(out);
                    assert(before.rest() == stage.rest() + it.rest());
                    assert(out@ + it.rest() =~= done + before.rest());
                },
            }
        }
    }

    pub fn stages(&self) -> (r: usize)
        ensures
            r == self.cursor.count,
    {
        self.cursor.count
    }

    pub fn next(&mut self) -> (r: Option<Stage>)
        requires
            old(self).wf(),
        ensures
            final(self).wf(),
            old(self).cursor.exhausted() ==> r is None && *final(self) == *old(self),
            !old(self).cursor.exhausted() ==> r == Some(old(self).item()) && *final(self) == old(self).advanced(),
            r matches Some(st) ==> st.wf() && st.offset + 2 * st.distance * st.cursor.count <= old(self).offset
                + pow2((old(self).group_index + 1) as nat),
    {
        if self.cursor.index >= self.cursor.count {
            return None;
        }
        let stage_index = self.cursor.index;
        let ghost g = self.group_index as nat;
        let ghost st = stage_index as nat;
        proof {
            lemma_shl_one((self.group_index - stage_index) as usize);
            lemma_stage_split(g, st);
            let d = pow2((g - st) as nat);
            let c = pattern_count(st);
            if st == 0 {
                lemma2_to64();
                assert(2 * d * c == pow2(g + 1));
            } else {
                assert(d + 2 * d * c == pow2(g + 1) - d) by (nonlinear_arith)
                    requires
                        c == pow2(st) - 1,
                        pow2(g + 1) == 2 * d * pow2(st),
                ;
            }
        }
        let distance: usize = 1 << (self.group_index - stage_index);
        let offset = if stage_index == 0 {
            self.offset
        } else {
            self.offset + distance
        };
        self.cursor.index += 1;
        Some(Stage::new(self.group_index, stage_index, offset))
    }
}

/// One merge level: every block that merges runs of `2^group_index` items.
#[derive(Clone, Copy, Debug, PartialEq, Eq, Structural)]
pub struct Group {
    pub length: usize,
    pub group_index: usize,
    pub cursor: Cursor,
}

impl Group {
    pub open spec fn spec_new(length: usize, group_index: usize, blocks: usize) -> Group {
        Group { length, group_index, cursor: Cursor { index: 0, count: blocks } }
    }

    pub open spec fn wf(self) -> bool {
        &&& self.group_index + 1 < usize::BITS
        &&& self.length == self.cursor.count * pow2((self.group_index + 1) as nat)
        &&& self.cursor.index <= self.cursor.count
    }

    /// The block at the cursor.
    pub open spec fn item(self) -> Block {
        Block::spec_new(
            (self.cursor.index * pow2((self.group_index + 1) as nat)) as usize,
            self.group_index,
        )
    }

    pub open spec fn advanced(self) -> Group {
        Group { cursor: self.cursor.advanced(), ..self }
    }

    /// The pairs still to come.
    pub open spec fn rest(self) -> Seq<Pair>
        decreases self.cursor.count - self.cursor.index,
    {
        if self.cursor.index < self.cursor.count {
            self.item().rest() + self.advanced().rest()
        } else {
            seq![]
        }
    }

    pub fn new(length: usize, group_index: usize, blocks: usize) -> (r: Self)
        ensures
            r == Group::spec_new(length, group_index, blocks),
    {
        let cursor = Cursor::new(0, blocks);
        Group { length, group_index, cursor }
    }

    /// Appends the pairs still to come, in order.
    pub fn append_to(self, out: &mut Vec<Pair>)
        requires
            self.wf(),
        ensures
            final(out)@ == old(out)@ + self.rest(),
    {
        let ghost start = old(out)@;
        let mut it = self;
        loop
            invariant
                it.wf(),
                out@ + it.rest() == start + self.rest(),
            ensures
                out@ == start + self.rest(),
            decreases it.cursor.count - it.cursor.index,
        {
            let ghost before = it;
            match it.next() {
                None => {
                    assert(out@ + it.rest() =~= out@);
                    break;
                },
                Some(block) => {
                    let ghost done = out@;
                    block.append_to(out);
                    assert(before.rest() == block.rest() + it.rest());
                    assert(out@ + it.rest() =~= done + before.rest());
                },
            }
        }
    }

    pub fn blocks(&self) -> (r: usize)
        ensures
            r == self.cursor.count,
    {
        self.cursor.count
    }

    pub fn next(&mut self) -> (r: Option<Block>)
        requires
            old(self).wf(),
        ensures
            final(self).wf(),
            old(self).cursor.exhausted() ==> r is None && *final(self) == *old(self),
            !old(self).cursor.exhausted() ==> r == Some(old(self).item()) && *final(self) == old(self).advanced(),
            r matches Some(b) ==> b.wf() && b.offset + pow2((b.group_index + 1) as nat) <= old(self).length,
    {
        if self.cursor.index >= self.cursor.count {
            return None;
        }
        let ghost w = pow2((self.group_index + 1) as nat);
        proof {
            let (k, c, l) = (self.cursor.index as int, self.cursor.count as int, self.length as int);
            lemma_pow2_pos((self.group_index + 1) as nat);
            assert(l / c == w && k * w + w <= l) by (nonlinear_arith)
                requires
                    l == c * w,
                    0 <= k < c,
                    w > 0,
            ;
        }
        let offset = self.cursor.index * (self.length / self.cursor.count);
        self.cursor.index += 1;
        Some(Block::new(offset, self.group_index))
    }
}

/// The whole schedule for width `2^order`: one group per merge level.
#[derive(Clone, Copy, Debug, PartialEq, Eq, Structural)]
pub struct Network {
    pub order: usize,
    pub cursor: Cursor,
}

impl Network {
    pub open spec fn spec_new(order: usize) -> Network {
        Network { order, cursor: Cursor { index: 0, count: order } }
    }

    pub open spec fn wf(self) -> bool {
        &&& self.order < usize::BITS
        &&& self.cursor.count == self.order
        &&& self.cursor.index <= self.cursor.count
    }

    /// The group at the cursor.
    pub open spec fn item(self) -> Group {
        Group::spec_new(
            pow2(self.order as nat) as usize,
            self.cursor.index,
            pow2((self.cursor.count - self.cursor.index - 1) as nat) as usize,
        )
    }

    pub open spec fn advanced(self) -> Network {
        Network { cursor: self.cursor.advanced(), ..self }
    }

    /// The pairs still to come.
    pub open spec fn rest(self) -> Seq<Pair>
        decreases self.cursor.count - self.cursor.index,
    {
        if self.cursor.index < self.cursor.count {
            self.item().rest() + self.advanced().rest()
        } else {
            seq![]
        }
    }

    pub fn new(order: usize) -> (r: Self)
        requires
            order < usize::BITS,
        ensures
            r == Network::spec_new(order),
            r.wf(),
    {
        let groups = order;
        let cursor = Cursor::new(0, groups);
        Network { order, cursor }
    }

    pub fn order(&self) -> (r: usize)
        ensures
            r == self.order,
    {
        self.order
    }

    /// Appends the pairs still to come, in order.
    pub fn append_to(self, out: &mut Vec<Pair>)
        requires
            self.wf(),
        ensures
            final(out)@ == old(out)@ + self.rest(),
    {
        let ghost start = old(out)@;
        let mut it = self;
        loop
            invariant
                it.wf(),
                out@ + it.rest() == start + self.rest(),
            ensures
                out@ == start + self.rest(),
            decreases it.cursor.count - it.cursor.index,
        {
            let ghost before = it;
            match it.next() {
                None => {
                    assert(out@ + it.rest() =~= out@);
                    break;
                },
                Some(group) => {
                    let ghost done = out@;
                    group.append_to(out);
                    assert(before.rest() == group.rest() + it.rest());
                    assert(out@ + it.rest() =~= done + before.rest());
                },
            }
        }
    }

    /// Every pair still to come, in order.
    pub fn pairs(self) -> (r: Vec<Pair>)
        requires
            self.wf(),
        ensures
            r@ == self.rest(),
    {
        let mut out: Vec<Pair> = Vec::new();
        self.append_to(&mut out);
        assert(out@ =~= self.rest());
        out
    }

    pub fn groups(&self) -> (r: usize)
        ensures
            r == self.cursor.count,
    {
        self.cursor.count
    }

    pub fn next(&mut self) -> (r: Option<Group>)
        requires
            old(self).wf(),
        ensures
            final(self).wf(),
            old(self).cursor.exhausted() ==> r is None && *final(self) == *old(self),
            !old(self).cursor.exhausted() ==> r == Some(old(self).item()) && *final(self) == old(self).advanced(),
            r matches Some(g) ==> g.wf(),
    {
        if self.cursor.index >= self.cursor.count {
            return None;
        }
        let ghost o = self.order as nat;
        let ghost g = self.cursor.index as nat;
        proof {
            lemma_shl_one(self.order);
            lemma_shl_one((self.cursor.count - self.cursor.index - 1) as usize);
            lemma_pow2_adds((o - g - 1) as nat, g + 1);
            assert(((o - g - 1) as nat + (g + 1)) as nat == o);
        }
        let length: usize = 1 << self.order;
        let index = self.cursor.index;
        let blocks: usize = 1 << (self.cursor.count - self.cursor.index - 1);
        self.cursor.index += 1;
        Some(Group::new(length, index, blocks))
    }
}

/// Generating the schedule of one order twice gives the same pairs in the
/// same order: what `Network::new(order).pairs()` returns depends on `order`
/// alone.
pub proof fn lemma_regeneration_agrees(order: usize, first: Seq<Pair>, second: Seq<Pair>)
    requires
        order < usize::BITS,
        first == Network::spec_new(order).rest(),
        second == Network::spec_new(order).rest(),
    ensures
        first == second,
{
}

} // verus!
