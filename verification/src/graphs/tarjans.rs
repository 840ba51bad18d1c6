//! A depth-first search that numbers the vertices as it enters them,
//! keeps them on a stack, and takes a group off the stack at every vertex
//! that it leaves with the number it entered it with.
//!
//! What a vertex keeps as its least number is set only where the search
//! looks at a vertex that it has visited, and then to the lesser of the
//! least numbers of that vertex and of vertex zero. The groups are
//! therefore not the strongly connected components in general, and a
//! vertex that is left with another number than its own stays on the
//! stack and may end up in no group at all.

use crate::graphs::reachability::well_formed;
use crate::graphs::strongly_connected_components::{
    lemma_unvisited_after_visit,
    unvisited,
    ComponentsError,
};
use vstd::prelude::*;

verus! {

/// What the search has noted.
pub struct Trail {
    /// Which vertices the search has entered.
    pub visited: Seq<bool>,
    /// The least number noted for each vertex.
    pub low: Seq<usize>,
    /// The number that each vertex got when the search entered it.
    pub num: Seq<usize>,
    /// The number that the next vertex will get.
    pub counter: int,
    /// The vertices that have been entered and are in no group yet.
    pub stack: Seq<usize>,
    /// The groups taken off the stack so far.
    pub groups: Seq<Seq<usize>>,
}

/// The lesser of two numbers.
pub open spec fn lesser(a: usize, b: usize) -> usize {
    if a <= b {
        a
    } else {
        b
    }
}

/// The stack and the group once the vertices above `u` and `u` itself
/// have been moved from the one to the other, the topmost first.
pub open spec fn taken_off(stack: Seq<usize>, group: Seq<usize>, u: usize) -> (
    Seq<usize>,
    Seq<usize>,
)
    decreases stack.len(),
{
    if stack.len() == 0 {
        (stack, group)
    } else if stack.last() == u {
        (stack.drop_last(), group.push(u))
    } else {
        taken_off(stack.drop_last(), group.push(stack.last()), u)
    }
}

/// The trail once `u` has been entered.
pub open spec fn marked(t: Trail, u: int) -> Trail {
    Trail {
        visited: t.visited.update(u, true),
        low: t.low.update(u, t.counter as usize),
        num: t.num.update(u, t.counter as usize),
        counter: t.counter + 1,
        stack: t.stack.push(u as usize),
        ..t
    }
}

/// The trail once the search has looked from `u` at the visited vertex
/// `v`.
pub open spec fn glanced(t: Trail, u: int, v: int) -> Trail {
    Trail { low: t.low.update(u, lesser(t.low[0], t.low[v])), ..t }
}

/// The trail once the search has left `u`: if `u` has kept the number it
/// was entered with, the vertices above it on the stack and `u` itself
/// make a new group.
pub open spec fn closed(t: Trail, u: int) -> Trail {
    if t.low[u] == t.num[u] {
        let parts = taken_off(t.stack, Seq::empty(), u as usize);
        Trail { stack: parts.0, groups: t.groups.push(parts.1), ..t }
    } else {
        t
    }
}

/// What the search leaves when it enters `u`, looks along all its edges
/// and leaves it. `fuel` bounds how deep the search may go.
pub open spec fn entered(al: Seq<Vec<usize>>, t: Trail, u: int, fuel: nat) -> Trail
    decreases fuel, al[u].len() + 1,
{
    closed(scanned(al, marked(t, u), u, 0, fuel), u)
}

/// What the search notes along the edges of `u` from the `k`-th on.
pub open spec fn scanned(al: Seq<Vec<usize>>, t: Trail, u: int, k: int, fuel: nat) -> Trail
    decreases fuel, al[u].len() - k,
{
    if k < 0 || k >= al[u].len() {
        t
    } else {
        let v = al[u][k] as int;
        if t.visited[v] {
            scanned(al, glanced(t, u, v), u, k + 1, fuel)
        } else if fuel == 0 {
            t
        } else {
            scanned(al, entered(al, t, v, (fuel - 1) as nat), u, k + 1, fuel)
        }
    }
}

/// What the searches from the vertices `u`, `u + 1`, ... leave, each
/// started only where the ones before have not visited its vertex.
pub open spec fn swept(al: Seq<Vec<usize>>, t: Trail, u: int) -> Trail
    decreases al.len() - u,
{
    if u < 0 || u >= al.len() {
        t
    } else if t.visited[u] {
        swept(al, t, u + 1)
    } else {
        swept(al, entered(al, t, u, al.len()), u + 1)
    }
}

/// Nothing noted of any of `n` vertices.
pub open spec fn blank(n: nat) -> Trail {
    Trail {
        visited: Seq::new(n, |i: int| false),
        low: Seq::new(n, |i: int| 0usize),
        num: Seq::new(n, |i: int| 0usize),
        counter: 0,
        stack: Seq::empty(),
        groups: Seq::empty(),
    }
}

/// The groups that the search of the whole graph takes off its stack.
pub open spec fn groups_of(al: Seq<Vec<usize>>) -> Seq<Seq<usize>> {
    swept(al, blank(al.len()), 0).groups
}

/// Vertex `u` is on the stack.
pub open spec fn stacked(stack: Seq<usize>, u: usize) -> bool {
    exists|i: int| 0 <= i < stack.len() && #[trigger] stack[i] == u
}

/// Taking the vertices above `u`, and `u`, off a stack that holds `u`
/// at place `p` leaves at least the `p` vertices below that place as they
/// were.
proof fn lemma_taken_off(stack: Seq<usize>, group: Seq<usize>, u: usize, p: int)
    requires
        0 <= p < stack.len(),
        stack[p] == u,
    ensures
        p <= taken_off(stack, group, u).0.len() < stack.len(),
        taken_off(stack, group, u).0 =~= stack.take(taken_off(stack, group, u).0.len() as int),
    decreases stack.len(),
{
    if stack.last() != u {
        let rest = stack.drop_last();
        lemma_taken_off(rest, group.push(stack.last()), u, p);
        let left = taken_off(rest, group.push(stack.last()), u).0;
        assert(left =~= stack.take(left.len() as int));
    } else {
        assert(stack.drop_last() =~= stack.take(stack.len() - 1));
    }
}

/// `shorter` is what `longer` holds at its beginning.
pub open spec fn is_prefix(shorter: Seq<usize>, longer: Seq<usize>) -> bool {
    shorter.len() <= longer.len() && shorter =~= longer.take(shorter.len() as int)
}

/// A search by numbers and a stack, with what it has noted.
pub struct Tarjans {
    visited: Vec<bool>,
    stack: Vec<usize>,
    low: Vec<usize>,
    num: Vec<usize>,
    counter: usize,
}

impl Tarjans {
    /// What the search has noted, with the groups `groups`.
    pub closed spec fn trail(&self, groups: Seq<Vec<usize>>) -> Trail {
        Trail {
            visited: self.visited@,
            low: self.low@,
            num: self.num@,
            counter: self.counter as int,
            stack: self.stack@,
            groups: Seq::new(groups.len(), |i: int| groups[i]@),
        }
    }

    /// A search that has noted nothing, of no vertex.
    pub fn new() -> (search: Self)
        ensures
            search.trail(Seq::empty()) == blank(0),
    {
        let search = Self {
            visited: Vec::new(),
            stack: Vec::new(),
            low: Vec::new(),
            num: Vec::new(),
            counter: 0,
        };
        proof {
            let now = search.trail(Seq::empty());
            let goal = blank(0);
            assert(now.visited =~= goal.visited);
            assert(now.low =~= goal.low);
            assert(now.num =~= goal.num);
            assert(now.stack =~= goal.stack);
            assert(now.groups =~= goal.groups);
        }
        search
    }

    /// Enters `u`, searches on from there, and leaves `u`.
    fn dfs(
        &mut self,
        al: &[Vec<usize>],
        u: usize,
        components: &mut Vec<Vec<usize>>,
        Ghost(fuel): Ghost<nat>,
    )
        requires
            well_formed(al@),
            u < al.len(),
            old(self).visited.len() == al.len(),
            old(self).low.len() == al.len(),
            old(self).num.len() == al.len(),
            !old(self).visited[u as int],
            unvisited(old(self).visited@) - 1 <= fuel,
            old(self).counter + unvisited(old(self).visited@) <= al.len(),
        ensures
            final(self).trail(final(components)@) == entered(
                al@,
                old(self).trail(old(components)@),
                u as int,
                fuel,
            ),
            final(self).visited.len() == al.len(),
            final(self).low.len() == al.len(),
            final(self).num.len() == al.len(),
            final(self).visited[u as int],
            forall|x: int|
                0 <= x < al.len() && old(self).visited[x] ==> #[trigger] final(self).visited[x],
            unvisited(final(self).visited@) < unvisited(old(self).visited@),
            0 <= unvisited(final(self).visited@),
            final(self).counter + unvisited(final(self).visited@) == old(self).counter + unvisited(
                old(self).visited@,
            ),
            is_prefix(old(self).stack@, final(self).stack@),
        decreases fuel,
    {
        let ghost start = self.trail(components@);
        proof {
            lemma_unvisited_after_visit(self.visited@, u as int);
        }
        self.visited.set(u, true);
        self.low.set(u, self.counter);
        self.num.set(u, self.counter);
        self.counter += 1;
        self.stack.push(u);
        proof {
            let now = self.trail(components@);
            let goal = marked(start, u as int);
            assert(now.groups =~= goal.groups);
            assert(now == goal);
        }
        let mut k: usize = 0;
        while k < al[u].len()
            invariant
                well_formed(al@),
                u < al.len(),
                0 <= k <= al[u as int].len(),
                self.visited.len() == al.len(),
                self.low.len() == al.len(),
                self.num.len() == al.len(),
                self.visited[u as int],
                old(self).counter + unvisited(old(self).visited@) <= al.len(),
                start == old(self).trail(old(components)@),
                closed(
                    scanned(al@, self.trail(components@), u as int, k as int, fuel),
                    u as int,
                ) == entered(al@, start, u as int, fuel),
                forall|x: int|
                    0 <= x < al.len() && old(self).visited[x] ==> #[trigger] self.visited[x],
                0 <= unvisited(self.visited@) <= fuel,
                unvisited(self.visited@) < unvisited(old(self).visited@),
                self.counter + unvisited(self.visited@) == old(self).counter + unvisited(
                    old(self).visited@,
                ),
                is_prefix(old(self).stack@.push(u), self.stack@),
            decreases al[u as int].len() - k,
        {
            let v: usize = al[u][k];
            let ghost here = self.trail(components@);
            let ghost below = self.stack@;
            proof {
                assert(al@[u as int][k as int] < al.len());
            }
            if !self.visited[v] {
                proof {
                    lemma_unvisited_after_visit(self.visited@, v as int);
                }
                self.dfs(al, v, components, Ghost((fuel - 1) as nat));
                proof {
                    assert(is_prefix(old(self).stack@.push(u), self.stack@)) by {
                        let base = old(self).stack@.push(u);
                        assert(base =~= below.take(base.len() as int));
                        assert(below =~= self.stack@.take(below.len() as int));
                        assert(base =~= self.stack@.take(base.len() as int));
                    }
                }
            } else {
                let first: usize = self.low[0];
                let other: usize = self.low[v];
                let least: usize = if first <= other {
                    first
                } else {
                    other
                };
                self.low.set(u, least);
                proof {
                    let now = self.trail(components@);
                    let goal = glanced(here, u as int, v as int);
                    assert(now.groups =~= goal.groups);
                    assert(now == goal);
                }
            }
            k += 1;
        }
        if self.low[u] == self.num[u] {
            let ghost full = self.stack@;
            let ghost groups_before = components@;
            let ghost target = taken_off(full, Seq::empty(), u);
            let ghost seen = self.visited@;
            let ghost lows = self.low@;
            let ghost nums = self.num@;
            let ghost count = self.counter;
            let mut component: Vec<usize> = Vec::new();
            let mut found: bool = false;
            proof {
                let base = old(self).stack@.push(u);
                assert(full[old(self).stack@.len() as int] == base[old(self).stack@.len() as int]);
                lemma_taken_off(full, Seq::empty(), u, old(self).stack@.len() as int);
            }
            while !found
                invariant
                    self.visited.len() == al.len(),
                    self.low.len() == al.len(),
                    self.num.len() == al.len(),
                    self.visited@ == seen,
                    self.low@ == lows,
                    self.num@ == nums,
                    self.counter == count,
                    components@ == groups_before,
                    target.0.len() < full.len(),
                    is_prefix(target.0, full),
                    old(self).stack@.len() <= target.0.len(),
                    !found ==> stacked(self.stack@, u) && taken_off(self.stack@, component@, u)
                        == target,
                    found ==> self.stack@ == target.0 && component@ == target.1,
                decreases self.stack.len() + (if found {
                    0int
                } else {
                    1int
                }),
            {
                let ghost left = self.stack@;
                proof {
                    let i = choose|i: int| 0 <= i < left.len() && #[trigger] left[i] == u;
                }
                let v: usize = self.stack.pop().unwrap();
                component.push(v);
                if u == v {
                    found = true;
                } else {
                    proof {
                        let i = choose|i: int| 0 <= i < left.len() && #[trigger] left[i] == u;
                        assert(self.stack@[i] == u);
                    }
                }
            }
            let ghost closing = self.trail(components@);
            components.push(component);
            proof {
                assert(is_prefix(old(self).stack@, self.stack@)) by {
                    let base = old(self).stack@;
                    assert(base =~= full.take(base.len() as int));
                    assert(self.stack@ =~= full.take(self.stack@.len() as int));
                    assert(base =~= self.stack@.take(base.len() as int));
                }
                let now = self.trail(components@);
                let open = Trail { stack: full, ..closing };
                let goal = closed(open, u as int);
                assert(now.groups =~= goal.groups) by {
                    assert(now.groups.len() == goal.groups.len());
                    assert forall|i: int| 0 <= i < now.groups.len() implies now.groups[i]
                        == goal.groups[i] by {}
                }
                assert(now == goal);
            }
        } else {
            proof {
                let base = old(self).stack@;
                assert(base =~= self.stack@.take(base.len() as int)) by {
                    let longer = base.push(u);
                    assert(longer =~= self.stack@.take(longer.len() as int));
                    assert forall|i: int| 0 <= i < base.len() implies base[i] == self.stack@[i] by {
                        assert(longer[i] == base[i]);
                    }
                }
            }
        }
    }

    /// Searches the graph and returns the groups that the search takes
    /// off its stack, in the order in which it takes them off.
    pub fn tarjans(&mut self, al: &[Vec<usize>]) -> (found: Result<
        Vec<Vec<usize>>,
        ComponentsError,
    >)
        requires
            well_formed(al@),
        ensures
            found is Ok,
            Seq::new(found.unwrap()@.len(), |i: int| found.unwrap()@[i]@) == groups_of(al@),
    {
        let n: usize = al.len();
        self.visited = vec![false; n];
        self.stack = Vec::new();
        self.low = vec![0; n];
        self.num = vec![0; n];
        self.counter = 0;
        let mut components: Vec<Vec<usize>> = Vec::new();
        proof {
            let now = self.trail(components@);
            let goal = blank(al@.len());
            assert(now.visited =~= goal.visited);
            assert(now.low =~= goal.low);
            assert(now.num =~= goal.num);
            assert(now.groups =~= goal.groups);
            assert(now.stack =~= goal.stack);
            assert(now == goal);
            lemma_unvisited_at_most(self.visited@, n as int);
        }
        let mut u: usize = 0;
        while u < n
            invariant
                well_formed(al@),
                n == al.len(),
                0 <= u <= n,
                self.visited.len() == n,
                self.low.len() == n,
                self.num.len() == n,
                swept(al@, self.trail(components@), u as int) == swept(al@, blank(al@.len()), 0),
                0 <= unvisited(self.visited@) <= n,
                self.counter + unvisited(self.visited@) <= n,
            decreases n - u,
        {
            if !self.visited[u] {
                self.dfs(al, u, &mut components, Ghost(al@.len()));
            }
            u += 1;
        }
        Ok(components)
    }
}

/// No more vertices are unvisited than there are.
proof fn lemma_unvisited_at_most(visited: Seq<bool>, k: int)
    requires
        0 <= k <= visited.len(),
    ensures
        0 <= crate::summation::sum_to(
            |i: int| crate::graphs::strongly_connected_components::unvisited_term(visited, i),
            k,
        ) <= k,
    decreases k,
{
    if k > 0 {
        lemma_unvisited_at_most(visited, k - 1);
    }
}

} // verus!
