//! Disjoint sets over `0..n` with union by rank and path compression.
//!
//! The abstract state is the function that sends every element to the
//! representative of its set. Looking a representative up may shorten the
//! paths inside the structure but never changes that function; a union
//! redirects one whole set to the representative of the other.

use crate::summation::{
    lemma_sum_additive,
    lemma_sum_congruence,
    lemma_sum_monotone,
    lemma_sum_point_update,
    lemma_sum_zero,
    sum_to,
};
use vstd::prelude::*;

verus! {

/// One if `roots[k]` is `r`, else zero.
pub open spec fn member_term(roots: Seq<int>, r: int, k: int) -> int {
    if roots[k] == r {
        1
    } else {
        0
    }
}

/// How many elements have `r` as their representative.
pub open spec fn members(roots: Seq<int>, r: int) -> int {
    sum_to(|k: int| member_term(roots, r, k), roots.len() as int)
}

/// One if `k` is its own representative, else zero.
pub open spec fn root_term(roots: Seq<int>, k: int) -> int {
    if roots[k] == k {
        1
    } else {
        0
    }
}

/// How many elements are their own representative: the number of sets.
pub open spec fn root_count(roots: Seq<int>) -> int {
    sum_to(|k: int| root_term(roots, k), roots.len() as int)
}

/// The representatives after the set represented by `x` has been merged
/// into the set represented by `y`.
pub open spec fn redirected(roots: Seq<int>, x: int, y: int) -> Seq<int> {
    Seq::new(
        roots.len(),
        |k: int|
            if roots[k] == x {
                y
            } else {
                roots[k]
            },
    )
}

/// The sum of `k` ones is `k`.
proof fn lemma_sum_of_ones(k: int)
    requires
        k >= 0,
    ensures
        sum_to(|i: int| 1int, k) == k,
    decreases k,
{
    if k > 0 {
        lemma_sum_of_ones(k - 1);
    }
}

/// Two different representatives have, together, at most as many members
/// as there are elements.
proof fn lemma_two_sets_fit(roots: Seq<int>, x: int, y: int)
    requires
        x != y,
    ensures
        members(roots, x) >= 0,
        members(roots, y) >= 0,
        members(roots, x) + members(roots, y) <= roots.len(),
{
    let n = roots.len() as int;
    let fx = |k: int| member_term(roots, x, k);
    let fy = |k: int| member_term(roots, y, k);
    let both = |k: int| member_term(roots, x, k) + member_term(roots, y, k);
    lemma_sum_additive(fx, fy, both, n);
    lemma_sum_monotone(both, |i: int| 1int, n);
    lemma_sum_of_ones(n);
    lemma_sum_zero(|i: int| 0int, n);
    lemma_sum_monotone(|i: int| 0int, fx, n);
    lemma_sum_monotone(|i: int| 0int, fy, n);
}

/// What a merge does to the member counts and to the number of sets.
proof fn lemma_redirected_counts(roots: Seq<int>, x: int, y: int)
    requires
        0 <= x < roots.len(),
        0 <= y < roots.len(),
        x != y,
        roots[x] == x,
        roots[y] == y,
    ensures
        members(redirected(roots, x, y), y) == members(roots, x) + members(roots, y),
        forall|r: int|
            r != x && r != y ==> #[trigger] members(redirected(roots, x, y), r) == members(
                roots,
                r,
            ),
        root_count(redirected(roots, x, y)) == root_count(roots) - 1,
        root_count(redirected(roots, x, y)) >= 0,
{
    let n = roots.len() as int;
    let after = redirected(roots, x, y);
    lemma_sum_additive(
        |k: int| member_term(roots, x, k),
        |k: int| member_term(roots, y, k),
        |k: int| member_term(after, y, k),
        n,
    );
    assert forall|r: int| r != x && r != y implies #[trigger] members(after, r) == members(
        roots,
        r,
    ) by {
        lemma_sum_congruence(
            |k: int| member_term(after, r, k),
            |k: int| member_term(roots, r, k),
            n,
        );
    }
    lemma_sum_point_update(|k: int| root_term(roots, k), |k: int| root_term(after, k), n, x);
    lemma_sum_zero(|i: int| 0int, n);
    lemma_sum_monotone(|i: int| 0int, |k: int| root_term(after, k), n);
}

/// A partition of `0..n` into disjoint sets.
pub struct UnionFind {
    parent: Vec<usize>,
    rank: Vec<usize>,
    set_size: Vec<usize>,
    num_sets: usize,
    roots: Ghost<Seq<int>>,
}

impl UnionFind {
    /// The number of elements.
    pub closed spec fn len(&self) -> nat {
        self.roots@.len()
    }

    /// The representative of every element, by element.
    pub closed spec fn roots(&self) -> Seq<int> {
        self.roots@
    }

    /// The representative of the set that holds `i`.
    pub open spec fn root(&self, i: int) -> int {
        self.roots()[i]
    }

    /// How much the rank grows from `i` to its representative: a bound on
    /// the number of links between them.
    pub closed spec fn climb(&self, i: int) -> int {
        self.rank[self.roots@[i]] - self.rank[i]
    }

    /// Element `k` is linked consistently: its parent lies in the same set
    /// and has a larger rank, and `k` is its own parent exactly if it is its
    /// own representative.
    spec fn link_ok(&self, k: int) -> bool {
        let r = self.roots@[k];
        let p = self.parent[k] as int;
        &&& 0 <= r < self.roots@.len()
        &&& p < self.roots@.len()
        &&& self.roots@[r] == r
        &&& self.roots@[p] == r
        &&& (p == k <==> r == k)
        &&& p != k ==> self.rank[k] < self.rank[p]
        &&& r != k ==> self.rank[k] < self.rank[r]
        &&& r == k ==> self.set_size[k] == members(self.roots@, k) && self.rank[k]
            < self.set_size[k]
    }

    /// The structure is consistent with the representatives it stands for.
    pub closed spec fn wf(&self) -> bool {
        &&& self.parent.len() == self.roots@.len()
        &&& self.rank.len() == self.roots@.len()
        &&& self.set_size.len() == self.roots@.len()
        &&& self.num_sets == root_count(self.roots@)
        &&& forall|k: int| 0 <= k < self.roots@.len() ==> #[trigger] self.link_ok(k)
    }

    /// Every representative is an element that represents itself.
    pub proof fn lemma_root_is_fixed(&self, i: int)
        requires
            self.wf(),
            0 <= i < self.len(),
        ensures
            0 <= self.root(i) < self.len(),
            self.root(self.root(i)) == self.root(i),
    {
        assert(self.link_ok(i));
    }

    /// The number of sets is the number of representatives, and it is not
    /// negative.
    pub proof fn lemma_count_of_roots(&self)
        requires
            self.wf(),
        ensures
            self.roots().len() == self.len(),
            root_count(self.roots()) >= 0,
            self.len() > 0 ==> root_count(self.roots()) >= 1,
    {
        let n = self.len() as int;
        lemma_sum_zero(|i: int| 0int, n);
        lemma_sum_monotone(|i: int| 0int, |k: int| root_term(self.roots(), k), n);
        if n > 0 {
            self.lemma_root_is_fixed(0);
            let r = self.root(0);
            let only = |k: int|
                if k == r {
                    1int
                } else {
                    0int
                };
            crate::summation::lemma_sum_single(only, n, r);
            lemma_sum_monotone(only, |k: int| root_term(self.roots(), k), n);
        }
    }

    /// If there is but one set, all elements have the same representative.
    pub proof fn lemma_single_set(&self, a: int, b: int)
        requires
            self.wf(),
            root_count(self.roots()) == 1,
            0 <= a < self.len(),
            0 <= b < self.len(),
        ensures
            self.root(a) == self.root(b),
    {
        let n = self.len() as int;
        self.lemma_root_is_fixed(a);
        self.lemma_root_is_fixed(b);
        let ra = self.root(a);
        let rb = self.root(b);
        if ra != rb {
            let both = |k: int|
                if k == ra || k == rb {
                    1int
                } else {
                    0int
                };
            let first = |k: int|
                if k == ra {
                    1int
                } else {
                    0int
                };
            let second = |k: int|
                if k == rb {
                    1int
                } else {
                    0int
                };
            crate::summation::lemma_sum_single(first, n, ra);
            crate::summation::lemma_sum_single(second, n, rb);
            lemma_sum_additive(first, second, both, n);
            lemma_sum_monotone(both, |k: int| root_term(self.roots(), k), n);
        }
    }

    /// A partition of nothing.
    pub fn new() -> (uf: UnionFind)
        ensures
            uf.wf(),
            uf.len() == 0,
    {
        UnionFind {
            parent: Vec::new(),
            rank: Vec::new(),
            set_size: Vec::new(),
            num_sets: 0,
            roots: Ghost(Seq::empty()),
        }
    }

    /// The partition of `0..n` into singletons.
    pub fn with_capacity(n: usize) -> (uf: UnionFind)
        ensures
            uf.wf(),
            uf.len() == n,
            forall|i: int| 0 <= i < n ==> uf.root(i) == i,
            root_count(uf.roots()) == n,
    {
        let mut parent: Vec<usize> = Vec::new();
        let mut rank: Vec<usize> = Vec::new();
        let mut set_size: Vec<usize> = Vec::new();
        let mut i: usize = 0;
        while i < n
            invariant
                i <= n,
                parent.len() == i,
                rank.len() == i,
                set_size.len() == i,
                forall|k: int| 0 <= k < i ==> parent[k] == k && rank[k] == 0 && set_size[k] == 1,
            decreases n - i,
        {
            parent.push(i);
            rank.push(0);
            set_size.push(1);
            i = i + 1;
        }
        let ghost roots = Seq::new(n as nat, |k: int| k);
        let uf = UnionFind { parent, rank, set_size, num_sets: n, roots: Ghost(roots) };
        proof {
            lemma_sum_congruence(|k: int| root_term(roots, k), |k: int| 1int, n as int);
            lemma_sum_of_ones(n as int);
            assert forall|k: int| 0 <= k < n implies #[trigger] uf.link_ok(k) by {
                crate::summation::lemma_sum_single(|j: int| member_term(roots, k, j), n as int, k);
            }
        }
        uf
    }

    /// The representative of the set that holds `i`. The paths followed are
    /// shortened on the way; the sets stay as they are.
    pub fn find_set(&mut self, i: usize) -> (r: usize)
        requires
            old(self).wf(),
            i < old(self).len(),
        ensures
            final(self).wf(),
            final(self).roots() == old(self).roots(),
            r == old(self).root(i as int),
            r < old(self).len(),
        decreases old(self).climb(i as int),
    {
        proof {
            assert(self.link_ok(i as int));
        }
        if self.parent[i] == i {
            return i;
        }
        let p: usize = self.parent[i];
        proof {
            assert(self.link_ok(p as int));
        }
        let r: usize = self.find_set(p);
        let ghost before = *self;
        self.parent[i] = r;
        proof {
            assert(before.link_ok(i as int));
            assert forall|k: int| 0 <= k < self.roots@.len() implies #[trigger] self.link_ok(
                k,
            ) by {
                assert(before.link_ok(k));
            }
        }
        self.parent[i]
    }

    /// Whether `i` and `j` lie in the same set.
    pub fn is_same_set(&mut self, i: usize, j: usize) -> (same: bool)
        requires
            old(self).wf(),
            i < old(self).len(),
            j < old(self).len(),
        ensures
            final(self).wf(),
            final(self).roots() == old(self).roots(),
            same == (old(self).root(i as int) == old(self).root(j as int)),
    {
        let a: usize = self.find_set(i);
        let b: usize = self.find_set(j);
        a == b
    }

    /// Merges the sets that hold `i` and `j`. Returns whether they were
    /// different sets before. If they were, the representative of one of
    /// them now represents every element of both; all other sets stay as
    /// they are.
    pub fn union_set(&mut self, i: usize, j: usize) -> (merged: bool)
        requires
            old(self).wf(),
            i < old(self).len(),
            j < old(self).len(),
        ensures
            final(self).wf(),
            final(self).len() == old(self).len(),
            merged == (old(self).root(i as int) != old(self).root(j as int)),
            !merged ==> final(self).roots() == old(self).roots(),
            merged ==> root_count(final(self).roots()) == root_count(old(self).roots()) - 1,
            final(self).root(i as int) == old(self).root(i as int) || final(self).root(i as int)
                == old(self).root(j as int),
            forall|k: int|
                0 <= k < old(self).len() ==> #[trigger] final(self).root(k) == (if old(self).root(
                    k,
                ) == old(self).root(i as int) || old(self).root(k) == old(self).root(j as int) {
                    final(self).root(i as int)
                } else {
                    old(self).root(k)
                }),
    {
        if self.is_same_set(i, j) {
            return false;
        }
        let mut x: usize = self.find_set(i);
        let mut y: usize = self.find_set(j);
        proof {
            assert(self.link_ok(i as int));
            assert(self.link_ok(j as int));
            assert(self.link_ok(x as int));
            assert(self.link_ok(y as int));
        }
        if self.rank[x] > self.rank[y] {
            let t: usize = x;
            x = y;
            y = t;
        }
        let ghost before = *self;
        let ghost old_roots = self.roots@;
        let ghost new_roots = redirected(old_roots, x as int, y as int);
        proof {
            lemma_two_sets_fit(old_roots, x as int, y as int);
            lemma_redirected_counts(old_roots, x as int, y as int);
        }
        self.parent[x] = y;
        self.set_size[y] = self.set_size[y] + self.set_size[x];
        if self.rank[x] == self.rank[y] {
            self.rank[y] = self.rank[y] + 1;
        }
        self.num_sets = self.num_sets - 1;
        proof {
            self.roots@ = new_roots;
            assert forall|k: int| 0 <= k < new_roots.len() implies #[trigger] self.link_ok(k) by {
                assert(before.link_ok(k));
                assert(before.link_ok(before.parent[k] as int));
                assert(before.link_ok(old_roots[k]));
                if new_roots[k] == k && k != y {
                    assert(members(new_roots, k) == members(old_roots, k));
                }
            }
        }
        true
    }

    /// The number of elements of the set that holds `i`.
    pub fn size_of_set(&mut self, i: usize) -> (size: usize)
        requires
            old(self).wf(),
            i < old(self).len(),
        ensures
            final(self).wf(),
            final(self).roots() == old(self).roots(),
            size == members(old(self).roots(), old(self).root(i as int)),
    {
        let x: usize = self.find_set(i);
        proof {
            assert(self.link_ok(i as int));
            assert(self.link_ok(x as int));
        }
        self.set_size[x]
    }

    /// The number of sets.
    pub fn num_sets(&self) -> (count: usize)
        requires
            self.wf(),
        ensures
            count == root_count(self.roots()),
    {
        self.num_sets
    }

    /// The number of elements.
    pub fn set_size(&self) -> (n: usize)
        requires
            self.wf(),
        ensures
            n == self.len(),
    {
        self.set_size.len()
    }
}

impl Default for UnionFind {
    /// A partition of nothing.
    fn default() -> (uf: UnionFind)
        ensures
            uf.wf(),
            uf.len() == 0,
    {
        UnionFind::new()
    }
}

} // verus!
