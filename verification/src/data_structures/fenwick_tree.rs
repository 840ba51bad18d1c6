//! Fenwick trees over positions counted from zero. Node `i` of a tree
//! answers for the positions from `low(i)` to `i`, where `low(i)` is `i` with
//! its trailing one bits cleared. A prefix is put together from the nodes
//! `r`, `low(r) - 1`, ...; a position `idx` lies in the ranges of the nodes
//! `idx`, `high(idx)`, ..., where `high(i)` is `i` with its lowest zero bit
//! set.

use crate::numeric::{max_value, zero};
use vstd::prelude::*;

verus! {

/// `i & (i + 1)`: `i` with its trailing one bits cleared.
pub open spec fn low(i: nat) -> nat
    decreases i,
{
    if i % 2 == 0 {
        i
    } else {
        2 * low(i / 2)
    }
}

/// `i | (i + 1)`: `i` with its lowest zero bit set.
pub open spec fn high(i: nat) -> nat
    decreases i,
{
    if i % 2 == 0 {
        i + 1
    } else {
        2 * high(i / 2) + 1
    }
}

/// The sum of `s[from..to]`.
pub open spec fn range_sum(s: Seq<int>, from: int, to: int) -> int
    decreases to - from,
{
    if to <= from {
        0
    } else {
        range_sum(s, from, to - 1) + s[to - 1]
    }
}

/// The sum of every range of `s` fits in an `i64`.
pub open spec fn sums_fit(s: Seq<int>) -> bool {
    forall|from: int, to: int|
        0 <= from <= to <= s.len() ==> i64::MIN <= #[trigger] range_sum(s, from, to) <= i64::MAX
}

/// The numbers whose Fenwick tree is `tree`.
pub open spec fn unfolded(tree: Seq<int>) -> Seq<int>
    decreases tree.len(),
{
    if tree.len() == 0 {
        Seq::empty()
    } else {
        let before = unfolded(tree.drop_last());
        let i = (tree.len() - 1) as nat;
        before.push(tree.last() - range_sum(before, low(i) as int, i as int))
    }
}

/// The range of a node starts no later than the node, and the next node
/// that covers a position lies behind it.
pub proof fn lemma_low_high_bounds(i: nat)
    ensures
        low(i) <= i,
        i < high(i),
    decreases i,
{
    if i % 2 == 1 {
        lemma_low_high_bounds(i / 2);
    }
}

/// The range of the next covering node starts no later than the range of
/// the node.
pub proof fn lemma_low_of_high(i: nat)
    ensures
        low(high(i)) <= low(i),
    decreases i,
{
    if i % 2 == 0 {
        lemma_low_high_bounds(i / 2);
        assert(high(i) == i + 1);
        assert((i + 1) / 2 == i / 2);
        assert(low(i + 1) == 2 * low(i / 2));
    } else {
        lemma_low_of_high(i / 2);
        let h = high(i / 2);
        assert(high(i) == 2 * h + 1);
        assert((2 * h + 1) / 2 == h);
        assert(low(high(i)) == 2 * low(h));
    }
}

/// The ranges of the nodes strictly between a node and the next covering
/// node start behind the node.
pub proof fn lemma_between_nodes(j: nat, i: nat)
    requires
        j < i < high(j),
    ensures
        low(i) > j,
    decreases j,
{
    if j % 2 == 1 {
        let h = j / 2;
        let m = i / 2;
        assert(high(j) == 2 * high(h) + 1);
        if i % 2 == 1 {
            lemma_between_nodes(h, m);
        }
    }
}

/// A range sum splits at any point of the range.
pub proof fn lemma_range_sum_split(s: Seq<int>, from: int, mid: int, to: int)
    requires
        from <= mid <= to,
    ensures
        range_sum(s, from, to) == range_sum(s, from, mid) + range_sum(s, mid, to),
    decreases to - mid,
{
    if mid < to {
        lemma_range_sum_split(s, from, mid, to - 1);
    }
}

/// Range sums of sequences that agree on the range are equal.
pub proof fn lemma_range_sum_congruence(s: Seq<int>, t: Seq<int>, from: int, to: int)
    requires
        forall|k: int| from <= k < to ==> s[k] == t[k],
    ensures
        range_sum(s, from, to) == range_sum(t, from, to),
    decreases to - from,
{
    if from < to {
        lemma_range_sum_congruence(s, t, from, to - 1);
    }
}

/// Raising one number by `delta` raises the sums of the ranges that hold
/// its position by `delta` and leaves all others as they were.
pub proof fn lemma_range_sum_update(s: Seq<int>, idx: int, delta: int, from: int, to: int)
    requires
        0 <= idx < s.len(),
        0 <= from <= to <= s.len(),
    ensures
        range_sum(s.update(idx, s[idx] + delta), from, to) == range_sum(s, from, to) + (if from
            <= idx < to {
            delta
        } else {
            0
        }),
    decreases to - from,
{
    if from < to {
        lemma_range_sum_update(s, idx, delta, from, to - 1);
    }
}

/// Every node of the tree of the unfolded numbers holds the sum of its
/// range, and unfolding keeps the length.
pub proof fn lemma_unfolded_nodes(tree: Seq<int>)
    ensures
        unfolded(tree).len() == tree.len(),
        forall|i: int|
            0 <= i < tree.len() ==> #[trigger] tree[i] == range_sum(
                unfolded(tree),
                low(i as nat) as int,
                i + 1,
            ),
    decreases tree.len(),
{
    if tree.len() > 0 {
        let shorter = tree.drop_last();
        lemma_unfolded_nodes(shorter);
        let before = unfolded(shorter);
        let all = unfolded(tree);
        let last = (tree.len() - 1) as int;
        assert forall|i: int| 0 <= i < tree.len() implies #[trigger] tree[i] == range_sum(
            all,
            low(i as nat) as int,
            i + 1,
        ) by {
            lemma_low_high_bounds(i as nat);
            if i < last {
                assert(shorter[i] == tree[i]);
                lemma_range_sum_congruence(before, all, low(i as nat) as int, i + 1);
            } else {
                lemma_range_sum_congruence(before, all, low(i as nat) as int, i);
            }
        }
    }
}

/// A tree of zeros unfolds to zeros, whose sums are all zero.
pub proof fn lemma_unfolded_zeros(n: nat)
    ensures
        unfolded(Seq::new(n, |i: int| 0int)) =~= Seq::new(n, |i: int| 0int),
        sums_fit(Seq::new(n, |i: int| 0int)),
    decreases n,
{
    let zeros = Seq::new(n, |i: int| 0int);
    assert forall|from: int, to: int| 0 <= from <= to <= n implies #[trigger] range_sum(
        zeros,
        from,
        to,
    ) == 0 by {
        lemma_zero_range(zeros, from, to);
    }
    if n > 0 {
        lemma_unfolded_zeros((n - 1) as nat);
        let shorter = Seq::new((n - 1) as nat, |i: int| 0int);
        assert(zeros.drop_last() =~= shorter);
        lemma_low_high_bounds((n - 1) as nat);
        lemma_zero_range(shorter, low((n - 1) as nat) as int, n - 1);
    }
}

/// A range of zeros sums to zero.
pub proof fn lemma_zero_range(s: Seq<int>, from: int, to: int)
    requires
        0 <= from,
        to <= s.len(),
        forall|k: int| 0 <= k < s.len() ==> s[k] == 0,
    ensures
        range_sum(s, from, to) == 0,
    decreases to - from,
{
    if from < to {
        lemma_zero_range(s, from, to - 1);
    }
}

/// For a `usize` below the largest, `x | (x + 1)` is `high(x)`.
pub proof fn lemma_or_is_high(x: usize)
    requires
        x < usize::MAX,
    ensures
        (x | ((x + 1) as usize)) == high(x as nat),
    decreases x,
{
    let y: usize = (x + 1) as usize;
    assert(x % 2 == x & 1 && (x >> 1usize) == x / 2) by (bit_vector);
    if x % 2 == 0 {
        assert((x | y) == y) by (bit_vector)
            requires
                x & 1 == 0,
                y as int == x + 1,
        ;
    } else {
        let h: usize = x >> 1usize;
        let g: usize = (h + 1) as usize;
        lemma_or_is_high(h);
        lemma_low_high_bounds(h as nat);
        assert((x | y) as int == 2 * (h | g) + 1) by (bit_vector)
            requires
                x & 1 == 1,
                y as int == x + 1,
                h == x >> 1usize,
                g as int == h + 1,
        ;
    }
}

/// For a non-negative `i64` below the largest, `r & (r + 1)` is `low(r)`.
pub proof fn lemma_and_is_low(r: i64)
    requires
        0 <= r < i64::MAX,
    ensures
        (r & ((r + 1) as i64)) == low(r as nat),
    decreases r,
{
    let y: i64 = (r + 1) as i64;
    assert(r % 2 == r & 1 && (r >> 1u32) == r / 2) by (bit_vector)
        requires
            r >= 0,
    ;
    if r % 2 == 0 {
        assert((r & y) == r) by (bit_vector)
            requires
                r >= 0,
                r & 1 == 0,
                y as int == r + 1,
        ;
    } else {
        let h: i64 = r >> 1u32;
        let g: i64 = (h + 1) as i64;
        lemma_and_is_low(h);
        assert((r & y) as int == 2 * (h & g)) by (bit_vector)
            requires
                r >= 0,
                r & 1 == 1,
                y as int == r + 1,
                h == r >> 1u32,
                g as int == h + 1,
        ;
    }
}

/// A Fenwick tree of sums: prefix sums of a list of numbers under additions
/// to single numbers.
pub struct FenwickTree {
    n: usize,
    tree: Vec<i64>,
    values: Ghost<Seq<int>>,
}

impl View for FenwickTree {
    type V = Seq<int>;

    /// The numbers that the tree holds the sums of.
    closed spec fn view(&self) -> Seq<int> {
        self.values@
    }
}

impl FenwickTree {
    /// Every node holds the sum of its range, and every range sum fits in an
    /// `i64`.
    pub closed spec fn wf(&self) -> bool {
        &&& self.n == self.tree.len()
        &&& self.n == self.values@.len()
        &&& self.n < i64::MAX
        &&& sums_fit(self.values@)
        &&& forall|i: int|
            0 <= i < self.n ==> (#[trigger] self.tree[i]) as int == range_sum(
                self.values@,
                low(i as nat) as int,
                i + 1,
            )
    }

    /// A tree of `n` nodes, each holding `default`: the tree of the numbers
    /// that such a tree unfolds to, all zero if `default` is zero.
    pub fn new(n: usize, default: i64) -> (tree: FenwickTree)
        requires
            n < i64::MAX,
            sums_fit(unfolded(Seq::new(n as nat, |i: int| default as int))),
        ensures
            tree.wf(),
            tree@ == unfolded(Seq::new(n as nat, |i: int| default as int)),
            tree@.len() == n,
    {
        let tree: Vec<i64> = vec![default; n];
        let ghost nodes = Seq::new(n as nat, |i: int| default as int);
        proof {
            lemma_unfolded_nodes(nodes);
            assert forall|i: int| 0 <= i < n implies (#[trigger] tree[i]) as int == range_sum(
                unfolded(nodes),
                low(i as nat) as int,
                i + 1,
            ) by {
                assert(nodes[i] == default);
            }
        }
        FenwickTree { n, tree, values: Ghost(unfolded(nodes)) }
    }

    /// Adds `delta` to the number at position `idx`. A position beyond the
    /// end changes nothing.
    pub fn add(&mut self, idx: usize, delta: i64)
        requires
            old(self).wf(),
            idx < old(self)@.len() ==> sums_fit(
                old(self)@.update(idx as int, old(self)@[idx as int] + delta),
            ),
        ensures
            final(self).wf(),
            idx < old(self)@.len() ==> final(self)@ == old(self)@.update(
                idx as int,
                old(self)@[idx as int] + delta,
            ),
            idx >= old(self)@.len() ==> final(self)@ == old(self)@,
    {
        if idx >= self.n {
            return ;
        }
        let ghost before = self.values@;
        let ghost after = before.update(idx as int, before[idx as int] + delta);
        let ghost start = idx as int;
        let mut idx: usize = idx;
        proof {
            lemma_low_high_bounds(start as nat);
        }
        while idx < self.n
            invariant
                self.n == old(self).n,
                self.n == self.tree.len(),
                self.n == before.len(),
                self.n < i64::MAX,
                self.values@ == before,
                after == before.update(start, before[start] + delta),
                sums_fit(before),
                sums_fit(after),
                0 <= start < self.n,
                start <= idx,
                low(idx as nat) <= start,
                forall|i: int|
                    0 <= i < self.n ==> (#[trigger] self.tree[i]) as int == range_sum(
                        before,
                        low(i as nat) as int,
                        i + 1,
                    ) + (if i < idx && low(i as nat) <= start <= i {
                        delta as int
                    } else {
                        0
                    }),
            decreases
                    (if idx < self.n {
                        self.n - idx
                    } else {
                        0
                    }),
        {
            proof {
                lemma_range_sum_update(
                    before,
                    start,
                    delta as int,
                    low(idx as nat) as int,
                    idx + 1,
                );
                assert(i64::MIN <= range_sum(after, low(idx as nat) as int, idx + 1) <= i64::MAX);
                lemma_or_is_high(idx);
                lemma_low_high_bounds(idx as nat);
                lemma_low_of_high(idx as nat);
                assert forall|i: int| idx < i < high(idx as nat) implies #[trigger] low(i as nat)
                    > idx by {
                    lemma_between_nodes(idx as nat, i as nat);
                }
            }
            self.tree[idx] += delta;
            idx = idx | (idx + 1);
        }
        proof {
            self.values@ = after;
            assert forall|i: int| 0 <= i < self.n implies (#[trigger] self.tree[i]) as int
                == range_sum(after, low(i as nat) as int, i + 1) by {
                lemma_low_high_bounds(i as nat);
                lemma_range_sum_update(before, start, delta as int, low(i as nat) as int, i + 1);
            }
        }
    }

    /// The sum of the numbers at the positions up to and including `r`;
    /// zero for a negative `r`.
    pub fn sum(&self, r: i64) -> (total: i64)
        requires
            self.wf(),
            r < self@.len(),
        ensures
            total == range_sum(self@, 0, r + 1),
    {
        let ghost end = r + 1;
        let mut r: i64 = r;
        let mut ret: i64 = zero();
        while r >= 0
            invariant
                self.wf(),
                r < self@.len(),
                r < end,
                r >= -1 || end == r + 1,
                end <= self@.len(),
                ret == range_sum(self@, r + 1, end),
            decreases r + 1,
        {
            proof {
                lemma_and_is_low(r);
                lemma_low_high_bounds(r as nat);
                lemma_range_sum_split(self@, low(r as nat) as int, r + 1, end);
                assert(i64::MIN <= range_sum(self@, low(r as nat) as int, end) <= i64::MAX);
                assert(self.tree[r as int] == range_sum(self@, low(r as nat) as int, r + 1));
            }
            ret += self.tree[r as usize];
            r = (r & (r + 1)) - 1;
        }
        ret
    }

    /// The sum of the numbers at the positions from `l` to `r`, both
    /// included.
    pub fn range_sum(&self, l: i64, r: i64) -> (total: i64)
        requires
            self.wf(),
            0 <= l <= r + 1,
            r < self@.len(),
        ensures
            total == range_sum(self@, l as int, r + 1),
    {
        proof {
            lemma_range_sum_split(self@, 0, l as int, r + 1);
            assert(i64::MIN <= range_sum(self@, l as int, r + 1) <= i64::MAX);
        }
        self.sum(r) - self.sum(l - 1)
    }
}

/// The lesser of two numbers.
pub open spec fn lesser(a: int, b: int) -> int {
    if a < b {
        a
    } else {
        b
    }
}

/// The least of `s[from..to]`, and the largest `i64` for an empty range.
pub open spec fn range_min(s: Seq<int>, from: int, to: int) -> int
    decreases to - from,
{
    if to <= from {
        i64::MAX as int
    } else {
        lesser(range_min(s, from, to - 1), s[to - 1])
    }
}

/// A range minimum is the lesser of the minima of two parts of the range.
pub proof fn lemma_range_min_split(s: Seq<int>, from: int, mid: int, to: int)
    requires
        from <= mid <= to,
    ensures
        range_min(s, from, to) == lesser(range_min(s, from, mid), range_min(s, mid, to)),
        range_min(s, from, to) <= i64::MAX,
    decreases to - mid,
{
    if mid < to {
        lemma_range_min_split(s, from, mid, to - 1);
    } else {
        lemma_range_min_bound(s, from, mid);
    }
}

/// No range minimum exceeds the largest `i64`.
pub proof fn lemma_range_min_bound(s: Seq<int>, from: int, to: int)
    ensures
        range_min(s, from, to) <= i64::MAX,
    decreases to - from,
{
    if from < to {
        lemma_range_min_bound(s, from, to - 1);
    }
}

/// Lowering one number to at most `val` lowers the minima of the ranges
/// that hold its position to at most `val` and leaves all others as they
/// were.
pub proof fn lemma_range_min_update(s: Seq<int>, idx: int, val: int, from: int, to: int)
    requires
        0 <= idx < s.len(),
        0 <= from <= to <= s.len(),
    ensures
        range_min(s.update(idx, lesser(s[idx], val)), from, to) == (if from <= idx < to {
            lesser(range_min(s, from, to), val)
        } else {
            range_min(s, from, to)
        }),
    decreases to - from,
{
    if from < to {
        lemma_range_min_update(s, idx, val, from, to - 1);
    }
}

/// For a non-negative `i32` below the largest, `r & (r + 1)` is `low(r)`.
pub proof fn lemma_and_is_low_i32(r: i32)
    requires
        0 <= r < i32::MAX,
    ensures
        (r & ((r + 1) as i32)) == low(r as nat),
    decreases r,
{
    let y: i32 = (r + 1) as i32;
    assert(r % 2 == r & 1 && (r >> 1u32) == r / 2) by (bit_vector)
        requires
            r >= 0,
    ;
    if r % 2 == 0 {
        assert((r & y) == r) by (bit_vector)
            requires
                r >= 0,
                r & 1 == 0,
                y as int == r + 1,
        ;
    } else {
        let h: i32 = r >> 1u32;
        let g: i32 = (h + 1) as i32;
        lemma_and_is_low_i32(h);
        assert((r & y) as int == 2 * (h & g)) by (bit_vector)
            requires
                r >= 0,
                r & 1 == 1,
                y as int == r + 1,
                h == r >> 1u32,
                g as int == h + 1,
        ;
    }
}

/// A Fenwick tree of minima: prefix minima of a list of numbers that can
/// only be lowered. A number that was never lowered is the largest `i64`.
pub struct MinFenwickTree {
    n: usize,
    tree: Vec<i64>,
    values: Ghost<Seq<int>>,
}

impl View for MinFenwickTree {
    type V = Seq<int>;

    /// The numbers that the tree holds the minima of.
    closed spec fn view(&self) -> Seq<int> {
        self.values@
    }
}

impl MinFenwickTree {
    /// Every node holds the minimum of its range.
    pub closed spec fn wf(&self) -> bool {
        &&& self.n == self.tree.len()
        &&& self.n == self.values@.len()
        &&& self.n < i32::MAX
        &&& forall|i: int|
            0 <= i < self.n ==> (#[trigger] self.tree[i]) as int == range_min(
                self.values@,
                low(i as nat) as int,
                i + 1,
            )
    }

    /// A tree over `n` numbers, none of them lowered yet.
    pub fn new(n: usize) -> (tree: MinFenwickTree)
        requires
            n < i32::MAX,
        ensures
            tree.wf(),
            tree@ == Seq::new(n as nat, |i: int| i64::MAX as int),
    {
        let tree: Vec<i64> = vec![max_value(); n];
        let ghost values = Seq::new(n as nat, |i: int| i64::MAX as int);
        proof {
            assert forall|i: int| 0 <= i < n implies (#[trigger] tree[i]) as int == range_min(
                values,
                low(i as nat) as int,
                i + 1,
            ) by {
                lemma_low_high_bounds(i as nat);
                lemma_top_range(values, low(i as nat) as int, i + 1);
            }
        }
        MinFenwickTree { n, tree, values: Ghost(values) }
    }

    /// The least of the numbers at the positions up to and including `r`;
    /// the largest `i64` for a negative `r`.
    pub fn get_min(&self, r: i32) -> (least: i64)
        requires
            self.wf(),
            r < self@.len(),
        ensures
            least == range_min(self@, 0, r + 1),
    {
        let ghost end = r + 1;
        let mut r: i32 = r;
        let mut ret: i64 = max_value();
        while r >= 0
            invariant
                self.wf(),
                r < self@.len(),
                r < end,
                r >= -1 || end == r + 1,
                end <= self@.len(),
                ret == range_min(self@, r + 1, end),
            decreases r + 1,
        {
            proof {
                lemma_and_is_low_i32(r);
                lemma_low_high_bounds(r as nat);
                lemma_range_min_split(self@, low(r as nat) as int, r + 1, end);
                assert(self.tree[r as int] == range_min(self@, low(r as nat) as int, r + 1));
            }
            let node: i64 = self.tree[r as usize];
            if node < ret {
                ret = node;
            }
            r = (r & (r + 1)) - 1;
        }
        ret
    }

    /// Lowers the number at position `idx` to `val` if it is larger. A
    /// position beyond the end changes nothing.
    pub fn update(&mut self, idx: usize, val: i64)
        requires
            old(self).wf(),
        ensures
            final(self).wf(),
            idx < old(self)@.len() ==> final(self)@ == old(self)@.update(
                idx as int,
                lesser(old(self)@[idx as int], val as int),
            ),
            idx >= old(self)@.len() ==> final(self)@ == old(self)@,
    {
        if idx >= self.n {
            return ;
        }
        let ghost before = self.values@;
        let ghost after = before.update(idx as int, lesser(before[idx as int], val as int));
        let ghost start = idx as int;
        let mut idx: usize = idx;
        proof {
            lemma_low_high_bounds(start as nat);
        }
        while idx < self.n
            invariant
                self.n == old(self).n,
                self.n == self.tree.len(),
                self.n == before.len(),
                self.n < i32::MAX,
                self.values@ == before,
                0 <= start < self.n,
                start <= idx,
                low(idx as nat) <= start,
                forall|i: int|
                    0 <= i < self.n ==> (#[trigger] self.tree[i]) as int == (if i < idx && low(
                        i as nat,
                    ) <= start <= i {
                        lesser(range_min(before, low(i as nat) as int, i + 1), val as int)
                    } else {
                        range_min(before, low(i as nat) as int, i + 1)
                    }),
            decreases
                    (if idx < self.n {
                        self.n - idx
                    } else {
                        0
                    }),
        {
            proof {
                lemma_or_is_high(idx);
                lemma_low_high_bounds(idx as nat);
                lemma_low_of_high(idx as nat);
                assert forall|i: int| idx < i < high(idx as nat) implies #[trigger] low(i as nat)
                    > idx by {
                    lemma_between_nodes(idx as nat, i as nat);
                }
            }
            if val < self.tree[idx] {
                self.tree[idx] = val;
            }
            idx = idx | (idx + 1);
        }
        proof {
            self.values@ = after;
            assert forall|i: int| 0 <= i < self.n implies (#[trigger] self.tree[i]) as int
                == range_min(after, low(i as nat) as int, i + 1) by {
                lemma_low_high_bounds(i as nat);
                lemma_range_min_update(before, start, val as int, low(i as nat) as int, i + 1);
            }
        }
    }
}

/// A range in which every number is the largest `i64` has that as its
/// minimum.
pub proof fn lemma_top_range(s: Seq<int>, from: int, to: int)
    requires
        0 <= from,
        to <= s.len(),
        forall|k: int| 0 <= k < s.len() ==> s[k] == i64::MAX,
    ensures
        range_min(s, from, to) == i64::MAX,
    decreases to - from,
{
    if from < to {
        lemma_top_range(s, from, to - 1);
    }
}

/// The sum of every range of `s` fits in an `i32`.
pub open spec fn sums_fit_i32(s: Seq<int>) -> bool {
    forall|from: int, to: int|
        0 <= from <= to <= s.len() ==> i32::MIN <= #[trigger] range_sum(s, from, to) <= i32::MAX
}

/// A Fenwick tree of sums for each row of a table of `m` rows and `n`
/// columns. Additions and prefix sums stay within the one row that they
/// name: the rows do not add up.
pub struct FenwictTree2D {
    n: usize,
    m: usize,
    tree: Vec<Vec<i32>>,
    values: Ghost<Seq<Seq<int>>>,
}

impl View for FenwictTree2D {
    type V = Seq<Seq<int>>;

    /// The table of numbers, row by row.
    closed spec fn view(&self) -> Seq<Seq<int>> {
        self.values@
    }
}

impl FenwictTree2D {
    /// Row `y` of the tree is the Fenwick tree of row `y` of the table,
    /// whose range sums all fit in an `i32`.
    spec fn row_ok(&self, y: int) -> bool {
        &&& self.tree[y].len() == self.n
        &&& self.values@[y].len() == self.n
        &&& sums_fit_i32(self.values@[y])
        &&& forall|j: int|
            0 <= j < self.n ==> (#[trigger] self.tree[y][j]) as int == range_sum(
                self.values@[y],
                low(j as nat) as int,
                j + 1,
            )
    }

    /// Every row of the tree is the Fenwick tree of its row of the table.
    pub closed spec fn wf(&self) -> bool {
        &&& self.tree.len() == self.m
        &&& self.values@.len() == self.m
        &&& self.n < i32::MAX
        &&& self.m < i32::MAX
        &&& forall|y: int| 0 <= y < self.m ==> #[trigger] self.row_ok(y)
    }

    /// The number of rows.
    pub closed spec fn rows(&self) -> nat {
        self.m as nat
    }

    /// The number of columns.
    pub closed spec fn columns(&self) -> nat {
        self.n as nat
    }

    /// The shape of the table is that of the tree.
    pub proof fn lemma_shape(&self)
        requires
            self.wf(),
        ensures
            self@.len() == self.rows(),
            forall|y: int| 0 <= y < self.rows() ==> (#[trigger] self@[y]).len() == self.columns(),
            forall|y: int| 0 <= y < self.rows() ==> sums_fit_i32(#[trigger] self@[y]),
    {
        assert forall|y: int| 0 <= y < self.rows() implies (#[trigger] self@[y]).len()
            == self.columns() && sums_fit_i32(self@[y]) by {
            assert(self.row_ok(y));
        }
    }

    /// A table of `m` rows and `n` columns of zeros.
    pub fn new(n: usize, m: usize) -> (tree: FenwictTree2D)
        requires
            n < i32::MAX,
            m < i32::MAX,
        ensures
            tree.wf(),
            tree.rows() == m,
            tree.columns() == n,
            tree@ == Seq::new(m as nat, |y: int| Seq::new(n as nat, |x: int| 0int)),
    {
        let tree: Vec<Vec<i32>> = vec![vec![0; n]; m];
        let ghost zeros = Seq::new(n as nat, |x: int| 0int);
        let ghost values = Seq::new(m as nat, |y: int| zeros);
        let made = FenwictTree2D { n, m, tree, values: Ghost(values) };
        proof {
            assert(values =~= Seq::new(m as nat, |y: int| Seq::new(n as nat, |x: int| 0int)));
            assert forall|y: int| 0 <= y < m implies #[trigger] made.row_ok(y) by {
                assert forall|from: int, to: int| 0 <= from <= to <= n implies i32::MIN
                    <= #[trigger] range_sum(zeros, from, to) <= i32::MAX by {
                    lemma_zero_range(zeros, from, to);
                }
                assert forall|j: int| 0 <= j < n implies (#[trigger] made.tree[y][j]) as int
                    == range_sum(zeros, low(j as nat) as int, j + 1) by {
                    lemma_low_high_bounds(j as nat);
                    lemma_zero_range(zeros, low(j as nat) as int, j + 1);
                }
            }
        }
        made
    }

    /// The sum of the numbers of row `l` at the columns up to and including
    /// `r`; zero for a negative `l` or `r`.
    pub fn sum(&self, l: i32, r: i32) -> (total: i32)
        requires
            self.wf(),
            l < self.rows(),
            r < self.columns(),
        ensures
            l >= 0 ==> total == range_sum(self@[l as int], 0, r + 1),
            l < 0 ==> total == 0,
    {
        let ghost row = l as int;
        let ghost end = r + 1;
        let mut l: i32 = l;
        let mut r: i32 = r;
        let mut ret: i32 = 0;
        while l >= 0
            invariant
                self.wf(),
                l < self.m,
                r < self.n,
                row < self.m,
                end <= self.n,
                l == row || (l < row && r < 0),
                r < end,
                r >= -1 || end == r + 1,
                row < 0 ==> ret == 0,
                row >= 0 && l == row ==> ret == range_sum(self@[row], r + 1, end),
                row >= 0 && l < row ==> ret == range_sum(self@[row], 0, end),
            decreases l + 1,
        {
            proof {
                assert(self.row_ok(l as int));
            }
            while r >= 0
                invariant
                    self.wf(),
                    0 <= l < self.m,
                    0 <= row < self.m,
                    l == row || (l < row && r < 0),
                    self.row_ok(l as int),
                    r < self.n,
                    r < end,
                    r >= -1 || end == r + 1,
                    end <= self.n,
                    l == row ==> ret == range_sum(self@[row], r + 1, end),
                    l < row ==> ret == range_sum(self@[row], 0, end),
                decreases r + 1,
            {
                proof {
                    lemma_and_is_low_i32(r);
                    lemma_low_high_bounds(r as nat);
                    lemma_range_sum_split(self@[row], low(r as nat) as int, r + 1, end);
                    assert(i32::MIN <= range_sum(self@[row], low(r as nat) as int, end)
                        <= i32::MAX);
                    assert(self.tree[l as int][r as int] == range_sum(
                        self@[row],
                        low(r as nat) as int,
                        r + 1,
                    ));
                }
                ret += self.tree[l as usize][r as usize];
                r = (r & (r + 1)) - 1;
            }
            proof {
                lemma_and_is_low_i32(l);
                lemma_low_high_bounds(l as nat);
            }
            l = (l & (l + 1)) - 1;
        }
        ret
    }

    /// The prefix sum of row `l2` up to column `r2` minus the prefix sum of
    /// row `l1 - 1` up to column `r1 - 1`.
    pub fn range_sum(&self, l1: i32, r1: i32, l2: i32, r2: i32) -> (total: i32)
        requires
            self.wf(),
            i32::MIN < l1 <= self.rows(),
            i32::MIN < r1 <= self.columns(),
            l2 < self.rows(),
            r2 < self.columns(),
            i32::MIN <= Self::row_prefix(self@, l2 as int, r2 as int) - Self::row_prefix(
                self@,
                l1 - 1,
                r1 - 1,
            ) <= i32::MAX,
        ensures
            total == Self::row_prefix(self@, l2 as int, r2 as int) - Self::row_prefix(
                self@,
                l1 - 1,
                r1 - 1,
            ),
    {
        self.sum(l2, r2) - self.sum(l1 - 1, r1 - 1)
    }

    /// The sum of the numbers of row `l` of `table` at the columns up to and
    /// including `r`; zero for a negative `l`.
    pub open spec fn row_prefix(table: Seq<Seq<int>>, l: int, r: int) -> int {
        if l >= 0 {
            range_sum(table[l], 0, r + 1)
        } else {
            0
        }
    }

    /// Adds `val` to the number in row `y` and column `x`. A row or column
    /// beyond the table changes nothing.
    pub fn add(&mut self, x: usize, y: usize, val: i32)
        requires
            old(self).wf(),
            y < old(self).rows() && x < old(self).columns() ==> sums_fit_i32(
                old(self)@[y as int].update(x as int, old(self)@[y as int][x as int] + val),
            ),
        ensures
            final(self).wf(),
            final(self).rows() == old(self).rows(),
            final(self).columns() == old(self).columns(),
            y < old(self).rows() && x < old(self).columns() ==> final(self)@ == old(self)@.update(
                y as int,
                old(self)@[y as int].update(x as int, old(self)@[y as int][x as int] + val),
            ),
            !(y < old(self).rows() && x < old(self).columns()) ==> final(self)@ == old(self)@,
    {
        let mut i: usize = y;
        let mut j: usize = x;
        let ghost table = self.values@;
        let ghost before = if y < self.m {
            table[y as int]
        } else {
            Seq::empty()
        };
        let ghost after = if y < self.m && x < self.n {
            before.update(x as int, before[x as int] + val)
        } else {
            before
        };
        while i < self.m
            invariant
                self.n == old(self).n,
                self.m == old(self).m,
                self.tree.len() == self.m,
                self.n < i32::MAX,
                self.m < i32::MAX,
                table == old(self).values@,
                table.len() == self.m,
                y < self.m ==> before == table[y as int],
                y < self.m && x < self.n ==> after == before.update(
                    x as int,
                    before[x as int] + val,
                ) && sums_fit_i32(after),
                i >= y,
                y >= self.m ==> i == y,
                i == y ==> j == x && *self == *old(self),
                i == y ==> self.wf(),
                i > y ==> j >= self.n,
                i > y ==> self.values@ == (if x < self.n {
                    table.update(y as int, after)
                } else {
                    table
                }) && self.wf(),
            decreases
                    (if i < self.m {
                        self.m - i
                    } else {
                        0
                    }),
        {
            let ghost whole = *self;
            proof {
                assert(self.row_ok(y as int));
                if x < self.n {
                    lemma_low_high_bounds(x as nat);
                }
            }
            while j < self.n
                invariant
                    y <= i < self.m,
                    self.n == old(self).n,
                    self.m == old(self).m,
                    self.tree.len() == self.m,
                    self.n < i32::MAX,
                    self.values@ == whole.values@,
                    whole.wf(),
                    whole.n == self.n,
                    whole.m == self.m,
                    !(i == y && x < self.n) ==> j >= self.n && *self == whole,
                    i == y && x < self.n ==> {
                        &&& table == whole.values@
                        &&& before == table[y as int]
                        &&& before.len() == self.n
                        &&& after == before.update(x as int, before[x as int] + val)
                        &&& sums_fit_i32(after)
                        &&& forall|r: int|
                            0 <= r < self.m && r != y ==> self.tree[r] == whole.tree[r]
                        &&& self.tree[y as int].len() == self.n
                        &&& x <= j
                        &&& low(j as nat) <= x
                        &&& forall|c: int|
                            0 <= c < self.n ==> (#[trigger] self.tree[y as int][c]) as int
                                == range_sum(before, low(c as nat) as int, c + 1) + (if c < j
                                && low(c as nat) <= x <= c {
                                val as int
                            } else {
                                0
                            })
                    },
                decreases
                        (if j < self.n {
                            self.n - j
                        } else {
                            0
                        }),
            {
                proof {
                    lemma_range_sum_update(
                        before,
                        x as int,
                        val as int,
                        low(j as nat) as int,
                        j + 1,
                    );
                    assert(i32::MIN <= range_sum(after, low(j as nat) as int, j + 1) <= i32::MAX);
                    lemma_or_is_high(j);
                    lemma_low_high_bounds(j as nat);
                    lemma_low_of_high(j as nat);
                    assert forall|c: int| j < c < high(j as nat) implies #[trigger] low(c as nat)
                        > j by {
                        lemma_between_nodes(j as nat, c as nat);
                    }
                }
                self.tree[i][j] += val;
                j |= j + 1;
            }
            proof {
                if i == y && x < self.n {
                    self.values@ = table.update(y as int, after);
                    assert forall|r: int| 0 <= r < self.m implies #[trigger] self.row_ok(r) by {
                        if r == y {
                            assert forall|c: int| 0 <= c < self.n implies (
                            #[trigger] self.tree[r][c]) as int == range_sum(
                                after,
                                low(c as nat) as int,
                                c + 1,
                            ) by {
                                lemma_low_high_bounds(c as nat);
                                lemma_range_sum_update(
                                    before,
                                    x as int,
                                    val as int,
                                    low(c as nat) as int,
                                    c + 1,
                                );
                            }
                        } else {
                            assert(whole.row_ok(r));
                        }
                    }
                }
                lemma_or_is_high(i);
                lemma_low_high_bounds(i as nat);
            }
            i |= i + 1;
        }
    }
}

/// The absolute value of `x`.
pub open spec fn mag(x: int) -> int {
    if x < 0 {
        -x
    } else {
        x
    }
}

/// The sum of the absolute values of `s[from..to]`.
pub open spec fn range_abs(s: Seq<int>, from: int, to: int) -> int
    decreases to - from,
{
    if to <= from {
        0
    } else {
        range_abs(s, from, to - 1) + mag(s[to - 1])
    }
}

/// The sum of the numbers of `table` in the rows `top..bottom` and the
/// columns `left..right`.
pub open spec fn box_sum(table: Seq<Seq<int>>, top: int, bottom: int, left: int, right: int) -> int
    decreases bottom - top,
{
    if bottom <= top {
        0
    } else {
        box_sum(table, top, bottom - 1, left, right) + range_sum(table[bottom - 1], left, right)
    }
}

/// The sum of the absolute values of the numbers of `table` in the rows
/// `top..bottom` and the columns `left..right`.
pub open spec fn box_abs(table: Seq<Seq<int>>, top: int, bottom: int, left: int, right: int) -> int
    decreases bottom - top,
{
    if bottom <= top {
        0
    } else {
        box_abs(table, top, bottom - 1, left, right) + range_abs(table[bottom - 1], left, right)
    }
}

/// A range sum lies between minus and plus the sum of the absolute values.
pub proof fn lemma_range_abs_bound(s: Seq<int>, from: int, to: int)
    ensures
        -range_abs(s, from, to) <= range_sum(s, from, to) <= range_abs(s, from, to),
        0 <= range_abs(s, from, to),
    decreases to - from,
{
    if from < to {
        lemma_range_abs_bound(s, from, to - 1);
    }
}

/// A range sum lies between minus and plus the sum of the absolute values
/// of any range that holds its range.
pub proof fn lemma_range_abs(s: Seq<int>, from: int, to: int, wide_from: int, wide_to: int)
    requires
        wide_from <= from <= to <= wide_to,
    ensures
        -range_abs(s, from, to) <= range_sum(s, from, to) <= range_abs(s, from, to),
        0 <= range_abs(s, from, to) <= range_abs(s, wide_from, wide_to),
{
    lemma_range_abs_bound(s, from, to);
    lemma_range_abs_bound(s, wide_from, from);
    lemma_range_abs_bound(s, to, wide_to);
    lemma_range_abs_split(s, wide_from, from, wide_to);
    lemma_range_abs_split(s, from, to, wide_to);
}

/// A sum of absolute values splits at any point of the range.
pub proof fn lemma_range_abs_split(s: Seq<int>, from: int, mid: int, to: int)
    requires
        from <= mid <= to,
    ensures
        range_abs(s, from, to) == range_abs(s, from, mid) + range_abs(s, mid, to),
    decreases to - mid,
{
    if mid < to {
        lemma_range_abs_split(s, from, mid, to - 1);
    }
}

/// A box sum splits between any two of its rows.
pub proof fn lemma_box_rows(
    table: Seq<Seq<int>>,
    top: int,
    mid: int,
    bottom: int,
    left: int,
    right: int,
)
    requires
        top <= mid <= bottom,
    ensures
        box_sum(table, top, bottom, left, right) == box_sum(table, top, mid, left, right) + box_sum(
            table,
            mid,
            bottom,
            left,
            right,
        ),
        box_abs(table, top, bottom, left, right) == box_abs(table, top, mid, left, right) + box_abs(
            table,
            mid,
            bottom,
            left,
            right,
        ),
    decreases bottom - mid,
{
    if mid < bottom {
        lemma_box_rows(table, top, mid, bottom - 1, left, right);
    }
}

/// A box sum splits between any two of its columns.
pub proof fn lemma_box_columns(
    table: Seq<Seq<int>>,
    top: int,
    bottom: int,
    left: int,
    mid: int,
    right: int,
)
    requires
        left <= mid <= right,
    ensures
        box_sum(table, top, bottom, left, right) == box_sum(table, top, bottom, left, mid) + box_sum(
            table,
            top,
            bottom,
            mid,
            right,
        ),
    decreases bottom - top,
{
    if top < bottom {
        lemma_box_columns(table, top, bottom - 1, left, mid, right);
        lemma_range_sum_split(table[bottom - 1], left, mid, right);
    }
}

/// A box sum lies between minus and plus the sum of the absolute values of
/// the box, which grows with the columns of the box.
pub proof fn lemma_box_abs_bound(
    table: Seq<Seq<int>>,
    top: int,
    bottom: int,
    left: int,
    right: int,
    wide_left: int,
    wide_right: int,
)
    requires
        wide_left <= left <= right <= wide_right,
    ensures
        -box_abs(table, top, bottom, left, right) <= box_sum(table, top, bottom, left, right)
            <= box_abs(table, top, bottom, left, right),
        0 <= box_abs(table, top, bottom, left, right) <= box_abs(
            table,
            top,
            bottom,
            wide_left,
            wide_right,
        ),
    decreases bottom - top,
{
    if top < bottom {
        lemma_box_abs_bound(table, top, bottom - 1, left, right, wide_left, wide_right);
        lemma_range_abs(table[bottom - 1], left, right, wide_left, wide_right);
    }
}

/// A box sum lies between minus and plus the sum of the absolute values of
/// any box that holds it.
pub proof fn lemma_box_abs(
    table: Seq<Seq<int>>,
    top: int,
    bottom: int,
    left: int,
    right: int,
    wide_top: int,
    wide_bottom: int,
    wide_left: int,
    wide_right: int,
)
    requires
        wide_top <= top <= bottom <= wide_bottom,
        wide_left <= left <= right <= wide_right,
    ensures
        -box_abs(table, top, bottom, left, right) <= box_sum(table, top, bottom, left, right)
            <= box_abs(table, top, bottom, left, right),
        0 <= box_abs(table, top, bottom, left, right) <= box_abs(
            table,
            wide_top,
            wide_bottom,
            wide_left,
            wide_right,
        ),
{
    lemma_box_abs_bound(table, top, bottom, left, right, wide_left, wide_right);
    lemma_box_abs_bound(table, wide_top, top, wide_left, wide_right, wide_left, wide_right);
    lemma_box_abs_bound(table, bottom, wide_bottom, wide_left, wide_right, wide_left, wide_right);
    lemma_box_rows(table, wide_top, top, wide_bottom, wide_left, wide_right);
    lemma_box_rows(table, top, bottom, wide_bottom, wide_left, wide_right);
}

/// The table after `val` has been added to the number in row `y` and column
/// `x`.
pub open spec fn raised(table: Seq<Seq<int>>, y: int, x: int, val: int) -> Seq<Seq<int>> {
    table.update(y, table[y].update(x, table[y][x] + val))
}

/// Raising one number by `val` raises the sums of the boxes that hold it by
/// `val` and leaves all others as they were.
pub proof fn lemma_box_sum_raised(
    table: Seq<Seq<int>>,
    y: int,
    x: int,
    val: int,
    top: int,
    bottom: int,
    left: int,
    right: int,
)
    requires
        0 <= y < table.len(),
        0 <= x < table[y].len(),
        0 <= top <= bottom <= table.len(),
        forall|r: int| 0 <= r < table.len() ==> 0 <= left <= right <= (#[trigger] table[r]).len(),
    ensures
        box_sum(raised(table, y, x, val), top, bottom, left, right) == box_sum(
            table,
            top,
            bottom,
            left,
            right,
        ) + (if top <= y < bottom && left <= x < right {
            val
        } else {
            0
        }),
    decreases bottom - top,
{
    if top < bottom {
        lemma_box_sum_raised(table, y, x, val, top, bottom - 1, left, right);
        if bottom - 1 == y {
            assert(table[y].len() >= right);
            lemma_range_sum_update(table[y], x, val, left, right);
        }
    }
}

/// Every row of `table` has `n` numbers.
pub open spec fn rectangular(table: Seq<Seq<int>>, n: int) -> bool {
    forall|r: int| 0 <= r < table.len() ==> (#[trigger] table[r]).len() == n
}

/// A Fenwick tree of sums over a table of `m` rows and `n` columns: sums
/// of the boxes that start in the top left corner, under additions to single
/// numbers.
pub struct FenwickTree2D {
    n: usize,
    m: usize,
    tree: Vec<Vec<i64>>,
    values: Ghost<Seq<Seq<int>>>,
}

impl View for FenwickTree2D {
    type V = Seq<Seq<int>>;

    /// The table of numbers, row by row.
    closed spec fn view(&self) -> Seq<Seq<int>> {
        self.values@
    }
}

impl FenwickTree2D {
    /// The number of rows.
    pub closed spec fn rows(&self) -> nat {
        self.m as nat
    }

    /// The number of columns.
    pub closed spec fn columns(&self) -> nat {
        self.n as nat
    }

    /// The absolute values of all numbers of `table` add up to something
    /// that fits in an `i64`, so that any sum of some of them does.
    pub open spec fn fits(table: Seq<Seq<int>>, m: int, n: int) -> bool {
        box_abs(table, 0, m, 0, n) <= i64::MAX
    }

    /// Node `(i, j)` holds the sum of its box.
    spec fn node_ok(&self, i: int, j: int) -> bool {
        self.tree[i][j] as int == box_sum(
            self.values@,
            low(i as nat) as int,
            i + 1,
            low(j as nat) as int,
            j + 1,
        )
    }

    /// Every node holds the sum of its box, and the table fits.
    pub closed spec fn wf(&self) -> bool {
        &&& self.tree.len() == self.m
        &&& self.values@.len() == self.m
        &&& self.n < i32::MAX
        &&& self.m < i32::MAX
        &&& rectangular(self.values@, self.n as int)
        &&& Self::fits(self.values@, self.m as int, self.n as int)
        &&& forall|i: int| 0 <= i < self.m ==> (#[trigger] self.tree[i]).len() == self.n
        &&& forall|i: int, j: int|
            0 <= i < self.m && 0 <= j < self.n ==> #[trigger] self.node_ok(i, j)
    }

    /// The shape of the table is that of the tree, and the table fits.
    pub proof fn lemma_shape(&self)
        requires
            self.wf(),
        ensures
            self@.len() == self.rows(),
            rectangular(self@, self.columns() as int),
            Self::fits(self@, self.rows() as int, self.columns() as int),
    {
    }

    /// A box of zeros sums to zero, also in absolute values.
    proof fn lemma_zero_box(table: Seq<Seq<int>>, n: int, top: int, bottom: int, left: int, right: int)
        requires
            0 <= top,
            bottom <= table.len(),
            0 <= left,
            right <= n,
            forall|r: int, c: int|
                0 <= r < table.len() && 0 <= c < n ==> (#[trigger] table[r]).len() == n
                    && #[trigger] table[r][c] == 0,
            rectangular(table, n),
        ensures
            box_sum(table, top, bottom, left, right) == 0,
            box_abs(table, top, bottom, left, right) == 0,
        decreases bottom - top,
    {
        if top < bottom {
            Self::lemma_zero_box(table, n, top, bottom - 1, left, right);
            let row = table[bottom - 1];
            assert forall|k: int| 0 <= k < row.len() implies row[k] == 0 by {
                assert(table[bottom - 1][k] == 0);
            }
            lemma_zero_range(row, left, right);
            Self::lemma_zero_abs(row, left, right);
        }
    }

    /// A range of zeros has absolute values that sum to zero.
    proof fn lemma_zero_abs(s: Seq<int>, from: int, to: int)
        requires
            0 <= from,
            to <= s.len(),
            forall|k: int| 0 <= k < s.len() ==> s[k] == 0,
        ensures
            range_abs(s, from, to) == 0,
        decreases to - from,
    {
        if from < to {
            Self::lemma_zero_abs(s, from, to - 1);
        }
    }

    /// A table of `m` rows and `n` columns of zeros.
    pub fn new(n: usize, m: usize) -> (tree: FenwickTree2D)
        requires
            n < i32::MAX,
            m < i32::MAX,
        ensures
            tree.wf(),
            tree.rows() == m,
            tree.columns() == n,
            tree@ == Seq::new(m as nat, |y: int| Seq::new(n as nat, |x: int| 0int)),
    {
        let tree: Vec<Vec<i64>> = vec![vec![zero(); n]; m];
        let ghost zeros = Seq::new(n as nat, |x: int| 0int);
        let ghost values = Seq::new(m as nat, |y: int| zeros);
        let made = FenwickTree2D { n, m, tree, values: Ghost(values) };
        proof {
            assert(values =~= Seq::new(m as nat, |y: int| Seq::new(n as nat, |x: int| 0int)));
            Self::lemma_zero_box(values, n as int, 0, m as int, 0, n as int);
            assert forall|i: int, j: int| 0 <= i < m && 0 <= j < n implies #[trigger] made.node_ok(
                i,
                j,
            ) by {
                lemma_low_high_bounds(i as nat);
                lemma_low_high_bounds(j as nat);
                Self::lemma_zero_box(
                    values,
                    n as int,
                    low(i as nat) as int,
                    i + 1,
                    low(j as nat) as int,
                    j + 1,
                );
            }
        }
        made
    }

    /// The sum of the numbers in the rows up to and including `y` and the
    /// columns up to and including `x`; zero if either is negative.
    pub fn sum(&self, y: i32, x: i32) -> (total: i64)
        requires
            self.wf(),
            y < self.rows(),
            x < self.columns(),
        ensures
            total == box_sum(self@, 0, y + 1, 0, x + 1),
    {
        let ghost bottom = y + 1;
        let ghost right = x + 1;
        let ghost table = self.values@;
        let mut y: i32 = y;
        let mut res: i64 = zero();
        while y >= 0
            invariant
                self.wf(),
                table == self.values@,
                y < self.m,
                y < bottom,
                y >= -1 || bottom == y + 1,
                bottom <= self.m,
                right == x + 1,
                x < self.n,
                res == box_sum(table, y + 1, bottom, 0, right),
            decreases y + 1,
        {
            let mut x: i32 = x;
            let ghost done = res as int;
            proof {
                lemma_and_is_low_i32(y);
                lemma_low_high_bounds(y as nat);
                Self::lemma_empty_columns(table, low(y as nat) as int, y + 1, right, right);
            }
            while x >= 0
                invariant
                    self.wf(),
                    table == self.values@,
                    0 <= y < self.m,
                    y < bottom,
                    bottom <= self.m,
                    low(y as nat) <= y,
                    right <= self.n,
                    x < right,
                    x >= -1 || right == x + 1,
                    done == box_sum(table, y + 1, bottom, 0, right),
                    res == done + box_sum(table, low(y as nat) as int, y + 1, x + 1, right),
                decreases x + 1,
            {
                proof {
                    lemma_and_is_low_i32(x);
                    lemma_low_high_bounds(x as nat);
                    let up = low(y as nat) as int;
                    let from = low(x as nat) as int;
                    assert(self.node_ok(y as int, x as int));
                    lemma_box_columns(table, up, y + 1, from, x + 1, right);
                    lemma_box_abs(table, y + 1, bottom, 0, right, y + 1, bottom, 0, self.n as int);
                    lemma_box_abs(table, up, y + 1, from, right, up, y + 1, 0, self.n as int);
                    lemma_box_rows(table, up, y + 1, bottom, 0, self.n as int);
                    lemma_box_abs(
                        table,
                        up,
                        bottom,
                        0,
                        self.n as int,
                        0,
                        self.m as int,
                        0,
                        self.n as int,
                    );
                }
                res += self.tree[y as usize][x as usize];
                x = (x & (x + 1)) - 1;
            }
            proof {
                let up = low(y as nat) as int;
                if right <= 0 {
                    Self::lemma_empty_columns(table, up, y + 1, 0, right);
                    Self::lemma_empty_columns(table, up, y + 1, x + 1, right);
                }
                lemma_box_rows(table, up, y + 1, bottom, 0, right);
            }
            y = (y & (y + 1)) - 1;
        }
        res
    }

    /// A box without columns sums to zero.
    proof fn lemma_empty_columns(table: Seq<Seq<int>>, top: int, bottom: int, left: int, right: int)
        requires
            right <= left,
        ensures
            box_sum(table, top, bottom, left, right) == 0,
        decreases bottom - top,
    {
        if top < bottom {
            Self::lemma_empty_columns(table, top, bottom - 1, left, right);
        }
    }

    /// Adds `val` to the number in row `y` and column `x`. A row or column
    /// beyond the table changes nothing.
    pub fn add(&mut self, x: usize, y: usize, val: i64)
        requires
            old(self).wf(),
            y < old(self).rows() && x < old(self).columns() ==> Self::fits(
                raised(old(self)@, y as int, x as int, val as int),
                old(self).rows() as int,
                old(self).columns() as int,
            ),
        ensures
            final(self).wf(),
            final(self).rows() == old(self).rows(),
            final(self).columns() == old(self).columns(),
            y < old(self).rows() && x < old(self).columns() ==> final(self)@ == raised(
                old(self)@,
                y as int,
                x as int,
                val as int,
            ),
            !(y < old(self).rows() && x < old(self).columns()) ==> final(self)@ == old(self)@,
    {
        if y >= self.m || x >= self.n {
            return ;
        }
        let ghost table = self.values@;
        let ghost after = raised(table, y as int, x as int, val as int);
        let ghost row = y as int;
        let ghost column = x as int;
        let mut i: usize = y;
        proof {
            lemma_low_high_bounds(row as nat);
            lemma_low_high_bounds(column as nat);
            assert forall|r: int, c: int| 0 <= r < self.m && 0 <= c < self.n implies (
            #[trigger] self.tree[r][c]) as int == box_sum(
                table,
                low(r as nat) as int,
                r + 1,
                low(c as nat) as int,
                c + 1,
            ) by {
                assert(self.node_ok(r, c));
            }
        }
        while i < self.m
            invariant
                self.n == old(self).n,
                self.m == old(self).m,
                self.tree.len() == self.m,
                self.n < i32::MAX,
                self.m < i32::MAX,
                self.values@ == table,
                table == old(self).values@,
                table.len() == self.m,
                rectangular(table, self.n as int),
                after == raised(table, row, column, val as int),
                Self::fits(after, self.m as int, self.n as int),
                0 <= row < self.m,
                0 <= column < self.n,
                column == x,
                low(column as nat) <= column,
                row <= i,
                low(i as nat) <= row,
                forall|r: int| 0 <= r < self.m ==> (#[trigger] self.tree[r]).len() == self.n,
                forall|r: int, c: int|
                    0 <= r < self.m && 0 <= c < self.n ==> (#[trigger] self.tree[r][c]) as int
                        == box_sum(
                        table,
                        low(r as nat) as int,
                        r + 1,
                        low(c as nat) as int,
                        c + 1,
                    ) + (if r < i && low(r as nat) <= row <= r && low(c as nat) <= column <= c {
                        val as int
                    } else {
                        0
                    }),
            decreases
                    (if i < self.m {
                        self.m - i
                    } else {
                        0
                    }),
        {
            let mut j: usize = x;
            while j < self.n
                invariant
                    self.n == old(self).n,
                    self.m == old(self).m,
                    self.tree.len() == self.m,
                    self.n < i32::MAX,
                    self.values@ == table,
                    table.len() == self.m,
                    rectangular(table, self.n as int),
                    after == raised(table, row, column, val as int),
                    Self::fits(after, self.m as int, self.n as int),
                    0 <= row < self.m,
                    0 <= column < self.n,
                    row <= i < self.m,
                    low(i as nat) <= row,
                    column <= j,
                    low(j as nat) <= column,
                    forall|r: int| 0 <= r < self.m ==> (#[trigger] self.tree[r]).len() == self.n,
                    forall|r: int, c: int|
                        0 <= r < self.m && 0 <= c < self.n ==> (#[trigger] self.tree[r][c]) as int
                            == box_sum(
                            table,
                            low(r as nat) as int,
                            r + 1,
                            low(c as nat) as int,
                            c + 1,
                        ) + (if (r < i || (r == i && c < j)) && low(r as nat) <= row <= r && low(
                            c as nat,
                        ) <= column <= c {
                            val as int
                        } else {
                            0
                        }),
                decreases
                        (if j < self.n {
                            self.n - j
                        } else {
                            0
                        }),
            {
                proof {
                    let up = low(i as nat) as int;
                    let from = low(j as nat) as int;
                    lemma_box_sum_raised(table, row, column, val as int, up, i + 1, from, j + 1);
                    lemma_box_abs(
                        after,
                        up,
                        i + 1,
                        from,
                        j + 1,
                        0,
                        self.m as int,
                        0,
                        self.n as int,
                    );
                    lemma_or_is_high(j);
                    lemma_low_high_bounds(j as nat);
                    lemma_low_of_high(j as nat);
                    assert forall|c: int| j < c < high(j as nat) implies #[trigger] low(c as nat)
                        > j by {
                        lemma_between_nodes(j as nat, c as nat);
                    }
                }
                self.tree[i][j] += val;
                j |= j + 1;
            }
            proof {
                lemma_or_is_high(i);
                lemma_low_high_bounds(i as nat);
                lemma_low_of_high(i as nat);
                assert forall|r: int| i < r < high(i as nat) implies #[trigger] low(r as nat)
                    > i by {
                    lemma_between_nodes(i as nat, r as nat);
                }
            }
            i |= i + 1;
        }
        proof {
            self.values@ = after;
            assert(rectangular(after, self.n as int)) by {
                assert forall|r: int| 0 <= r < after.len() implies (#[trigger] after[r]).len()
                    == self.n by {
                    assert(table[r].len() == self.n);
                }
            }
            assert forall|r: int, c: int|
                0 <= r < self.m && 0 <= c < self.n implies #[trigger] self.node_ok(r, c) by {
                lemma_low_high_bounds(r as nat);
                lemma_low_high_bounds(c as nat);
                lemma_box_sum_raised(
                    table,
                    row,
                    column,
                    val as int,
                    low(r as nat) as int,
                    r + 1,
                    low(c as nat) as int,
                    c + 1,
                );
                assert(self.tree[r][c] as int == box_sum(
                    table,
                    low(r as nat) as int,
                    r + 1,
                    low(c as nat) as int,
                    c + 1,
                ) + (if low(r as nat) <= row <= r && low(c as nat) <= column <= c {
                    val as int
                } else {
                    0
                }));
            }
        }
    }

    /// The sum of the numbers in the rows from `y1` to `y2` and the columns
    /// from `x1` to `x2`, all included.
    pub fn range_sum(&self, y1: i32, x1: i32, y2: i32, x2: i32) -> (total: i64)
        requires
            self.wf(),
            0 <= y1 <= y2 + 1,
            0 <= x1 <= x2 + 1,
            y2 < self.rows(),
            x2 < self.columns(),
        ensures
            total == box_sum(self@, y1 as int, y2 + 1, x1 as int, x2 + 1),
    {
        let ghost table = self.values@;
        let ghost m = self.m as int;
        let ghost n = self.n as int;
        proof {
            // Whole, above, left and corner, as the four prefix boxes split.
            lemma_box_rows(table, 0, y1 as int, y2 + 1, 0, x2 + 1);
            lemma_box_rows(table, 0, y1 as int, y2 + 1, 0, x1 as int);
            lemma_box_columns(table, y1 as int, y2 + 1, 0, x1 as int, x2 + 1);
            lemma_box_columns(table, 0, y1 as int, 0, x1 as int, x2 + 1);
            lemma_box_abs(table, y1 as int, y2 + 1, 0, x2 + 1, y1 as int, y2 + 1, 0, n);
            lemma_box_abs(table, y1 as int, y2 + 1, x1 as int, x2 + 1, y1 as int, y2 + 1, 0, n);
            lemma_box_abs(table, 0, y1 as int, 0, x1 as int, 0, y1 as int, 0, n);
            lemma_box_rows(table, 0, y1 as int, y2 + 1, 0, n);
            lemma_box_abs(table, 0, y2 + 1, 0, n, 0, m, 0, n);
            lemma_box_abs(table, y1 as int, y2 + 1, 0, n, 0, m, 0, n);
        }
        self.sum(y2, x2) - self.sum(y1 - 1, x2) - self.sum(y2, x1 - 1) + self.sum(y1 - 1, x1 - 1)
    }
}

} // verus!
