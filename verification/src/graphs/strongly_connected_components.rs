//! Strongly connected components by Kosaraju's algorithm: a depth-first
//! search that lists the vertices as it finishes them, then searches through
//! the reversed graph, starting from the vertices finished last.

pub use crate::graphs::tarjans::Tarjans;
use crate::graphs::reachability::{
    has_edge,
    is_reverse,
    is_walk,
    lemma_edge_reaches,
    lemma_reverse_reaches,
    lemma_reverse_reaches_back,
    lemma_strongly_connected_transitive,
    lemma_reaches_itself,
    lemma_reaches_transitive,
    lemma_walk_from_second,
    lemma_walk_suffix,
    lemma_walk_push,
    reaches,
    strongly_connected,
    well_formed,
};
use crate::summation::{
    lemma_sum_congruence,
    lemma_sum_monotone,
    lemma_sum_point_update,
    lemma_sum_zero,
    sum_to,
};
use vstd::prelude::*;

verus! {

/// Why a search was given up. No input makes it fail; the type is kept for
/// callers that want to handle a `Result`.
#[derive(Debug, Clone, Copy, PartialEq, Eq, Structural)]
pub enum ComponentsError {
    /// A vertex was expected where there was none.
    MissingVertex,
}

/// Vertex `v` stands in `list`.
pub open spec fn listed(list: Seq<usize>, v: int) -> bool {
    exists|i: int| 0 <= i < list.len() && #[trigger] list[i] == v
}

/// One if vertex `i` has not been visited, else zero.
pub open spec fn unvisited_term(visited: Seq<bool>, i: int) -> int {
    if visited[i] {
        0
    } else {
        1
    }
}

/// How many vertices have not been visited.
pub open spec fn unvisited(visited: Seq<bool>) -> int {
    sum_to(|i: int| unvisited_term(visited, i), visited.len() as int)
}

/// Vertex `v` has been entered but is not finished.
pub open spec fn open_now(visited: Seq<bool>, order: Seq<usize>, v: int) -> bool {
    0 <= v < visited.len() && visited[v] && !listed(order, v)
}

/// Vertex `v` is finished after position `i` of `order`, or has been
/// entered and is not finished yet.
pub open spec fn open_above(visited: Seq<bool>, order: Seq<usize>, i: int, v: int) -> bool {
    open_now(visited, order, v) || exists|j: int| i < j < order.len() && #[trigger] order[j] == v
}

/// Whatever the vertex at position `i` of `order` reaches was finished no
/// later than it, unless the vertex is strongly connected to one that is
/// finished later.
pub open spec fn settled(
    g: Seq<Vec<usize>>,
    visited: Seq<bool>,
    order: Seq<usize>,
    i: int,
) -> bool {
    forall|y: int| #[trigger]
        reaches(g, order[i] as int, y) ==> (exists|j: int| 0 <= j <= i && #[trigger] order[j] == y)
            || escapes(g, visited, order, i)
}

/// The vertex at position `i` of `order` is strongly connected to a vertex
/// that is finished later or not finished yet.
pub open spec fn escapes(g: Seq<Vec<usize>>, visited: Seq<bool>, order: Seq<usize>, i: int) -> bool {
    exists|v: int| #[trigger]
        strongly_connected(g, order[i] as int, v) && open_above(visited, order, i, v)
}

/// The state of the first search: no vertex is listed twice, every listed
/// vertex has been visited, every edge out of a listed vertex leads to a
/// visited vertex, and every listed vertex is settled.
pub open spec fn first_pass(g: Seq<Vec<usize>>, visited: Seq<bool>, order: Seq<usize>) -> bool {
    &&& well_formed(g)
    &&& visited.len() == g.len()
    &&& forall|i: int, j: int| 0 <= i < j < order.len() ==> order[i] != order[j]
    &&& forall|i: int| 0 <= i < order.len() ==> (#[trigger] order[i]) < g.len() && visited[order[i] as int]
    &&& forall|i: int, k: int|
        0 <= i < order.len() && 0 <= k < g[order[i] as int].len() ==> visited[(
        #[trigger] g[order[i] as int][k]) as int]
    &&& forall|i: int| 0 <= i < order.len() ==> #[trigger] settled(g, visited, order, i)
}

/// The state in which the first search may descend into `u`: `u` is not
/// visited, and the vertices that are visited but not finished lie on
/// `path`, a walk that ends in `u`.
pub open spec fn ready(
    g: Seq<Vec<usize>>,
    visited: Seq<bool>,
    order: Seq<usize>,
    u: int,
    path: Seq<int>,
) -> bool {
    &&& first_pass(g, visited, order)
    &&& 0 <= u < g.len()
    &&& !visited[u]
    &&& is_walk(g, path)
    &&& path[path.len() - 1] == u
    &&& forall|x: int|
        open_now(visited, order, x) ==> exists|k: int|
            0 <= k < path.len() - 1 && #[trigger] path[k] == x
}

/// Visiting one more vertex lowers the count of the unvisited by one.
pub proof fn lemma_unvisited_after_visit(visited: Seq<bool>, v: int)
    requires
        0 <= v < visited.len(),
        !visited[v],
    ensures
        unvisited(visited.update(v, true)) == unvisited(visited) - 1,
        unvisited(visited.update(v, true)) >= 0,
{
    let after = visited.update(v, true);
    lemma_sum_point_update(
        |i: int| unvisited_term(visited, i),
        |i: int| unvisited_term(after, i),
        visited.len() as int,
        v,
    );
    lemma_sum_zero(|i: int| 0int, visited.len() as int);
    lemma_sum_monotone(|i: int| 0int, |i: int| unvisited_term(after, i), visited.len() as int);
}

/// A settled vertex stays settled while more vertices are visited and
/// finished.
proof fn lemma_settled_persists(
    g: Seq<Vec<usize>>,
    visited: Seq<bool>,
    order: Seq<usize>,
    later_visited: Seq<bool>,
    later_order: Seq<usize>,
    i: int,
)
    requires
        0 <= i < order.len(),
        visited.len() == later_visited.len(),
        order.len() <= later_order.len(),
        forall|j: int| 0 <= j < order.len() ==> later_order[j] == order[j],
        forall|x: int| 0 <= x < visited.len() && visited[x] ==> later_visited[x],
        settled(g, visited, order, i),
    ensures
        settled(g, later_visited, later_order, i),
{
    assert forall|y: int| #[trigger] reaches(g, later_order[i] as int, y) implies (exists|j: int|
        0 <= j <= i && #[trigger] later_order[j] == y) || escapes(
        g,
        later_visited,
        later_order,
        i,
    ) by {
        assert(reaches(g, order[i] as int, y));
        if exists|j: int| 0 <= j <= i && #[trigger] order[j] == y {
            let j = choose|j: int| 0 <= j <= i && #[trigger] order[j] == y;
            assert(later_order[j] == y);
        } else {
            assert(escapes(g, visited, order, i));
            let v = choose|v: int| #[trigger]
                strongly_connected(g, order[i] as int, v) && open_above(visited, order, i, v);
            if open_now(visited, order, v) {
                if listed(later_order, v) {
                    let j = choose|j: int| 0 <= j < later_order.len() && #[trigger] later_order[j] == v;
                    if j < order.len() {
                        assert(order[j] == v);
                        assert(listed(order, v));
                    }
                    assert(later_order[j] == v);
                }
            } else {
                let j = choose|j: int| i < j < order.len() && #[trigger] order[j] == v;
                assert(later_order[j] == v);
            }
            assert(open_above(later_visited, later_order, i, v));
            assert(strongly_connected(g, later_order[i] as int, v));
        }
    }
}

/// From a finished vertex that `u` reaches, a walk ends in a finished
/// vertex, unless `u` reaches a vertex that is not finished.
proof fn lemma_walk_stays_finished(
    g: Seq<Vec<usize>>,
    visited: Seq<bool>,
    order: Seq<usize>,
    u: int,
    walk: Seq<int>,
)
    requires
        well_formed(g),
        visited.len() == g.len(),
        forall|i: int, k: int|
            0 <= i < order.len() && 0 <= k < g[order[i] as int].len() ==> visited[(
            #[trigger] g[order[i] as int][k]) as int],
        forall|i: int| 0 <= i < order.len() ==> (#[trigger] order[i]) < g.len(),
        is_walk(g, walk),
        listed(order, walk[0]),
        reaches(g, u, walk[0]),
    ensures
        listed(order, walk[walk.len() - 1]) || exists|v: int| #[trigger]
            open_now(visited, order, v) && reaches(g, u, v),
    decreases walk.len(),
{
    if walk.len() > 1 {
        let c = walk[0];
        let d = walk[1];
        lemma_walk_from_second(g, walk);
        let i = choose|i: int| 0 <= i < order.len() && #[trigger] order[i] == c;
        assert(has_edge(g, c, d));
        let k = choose|k: int| 0 <= k < g[c].len() && #[trigger] g[c][k] == d;
        assert(visited[g[order[i] as int][k] as int]);
        lemma_edge_reaches(g, c, d);
        lemma_reaches_transitive(g, u, c, d);
        if listed(order, d) {
            lemma_walk_stays_finished(g, visited, order, u, walk.drop_first());
        } else {
            assert(open_now(visited, order, d));
        }
    }
}

/// Vertex `v` stands in component `c`.
pub open spec fn in_component(components: Seq<Vec<usize>>, c: int, v: int) -> bool {
    0 <= c < components.len() && listed(components[c]@, v)
}

/// Vertex `v` stands in some component.
pub open spec fn covered(components: Seq<Vec<usize>>, v: int) -> bool {
    exists|c: int| #[trigger] in_component(components, c, v)
}

/// The components hold vertices of the graph, none of them twice, and two
/// vertices stand in one component exactly if they are strongly connected.
pub open spec fn separated(g: Seq<Vec<usize>>, components: Seq<Vec<usize>>) -> bool {
    &&& forall|c: int, i: int|
        0 <= c < components.len() && 0 <= i < components[c].len() ==> (
        #[trigger] components[c][i]) < g.len()
    &&& forall|c: int, i: int, j: int|
        0 <= c < components.len() && 0 <= i < j < components[c].len() ==> components[c][i]
            != components[c][j]
    &&& forall|c: int, a: int, b: int|
        #[trigger] in_component(components, c, a) && #[trigger] in_component(components, c, b)
            ==> strongly_connected(g, a, b)
    &&& forall|c: int, d: int, a: int, b: int|
        c != d && #[trigger] in_component(components, c, a) && #[trigger] in_component(
            components,
            d,
            b,
        ) ==> !strongly_connected(g, a, b)
}

/// The components are the strongly connected components of the graph:
/// every vertex stands in exactly one of them, exactly once, together with
/// exactly the vertices that it is strongly connected to.
pub open spec fn are_strong_components(g: Seq<Vec<usize>>, components: Seq<Vec<usize>>) -> bool {
    &&& separated(g, components)
    &&& forall|v: int| 0 <= v < g.len() ==> #[trigger] covered(components, v)
}

/// The edge from `a` to `b` stands in the adjacency list of a vertex before
/// `u`, or in that of `u` before position `k`.
pub open spec fn edge_before(g: Seq<Vec<usize>>, a: int, b: int, u: int, k: int) -> bool {
    &&& 0 <= a < g.len()
    &&& exists|i: int|
        0 <= i < g[a].len() && #[trigger] g[a][i] == b && (a < u || (a == u && i < k))
}

/// What the visited set holds of a strongly connected component, it holds
/// all of.
pub open spec fn closed(g: Seq<Vec<usize>>, visited: Seq<bool>) -> bool {
    forall|a: int, b: int|
        0 <= a < g.len() && 0 <= b < g.len() && visited[a] && #[trigger] strongly_connected(
            g,
            a,
            b,
        ) ==> visited[b]
}

/// Among the vertices that the second pass has not visited, the one that
/// the first pass finished last is reached back by whatever reaches it.
proof fn lemma_reached_back(
    g: Seq<Vec<usize>>,
    all: Seq<bool>,
    order: Seq<usize>,
    visited: Seq<bool>,
    i: int,
    j: int,
)
    requires
        first_pass(g, all, order),
        forall|v: int| 0 <= v < g.len() ==> listed(order, v),
        visited.len() == g.len(),
        closed(g, visited),
        0 <= j <= i < order.len(),
        forall|t: int| i < t < order.len() ==> visited[(#[trigger] order[t]) as int],
        !visited[order[j] as int],
        reaches(g, order[j] as int, order[i] as int),
    ensures
        reaches(g, order[i] as int, order[j] as int),
    decreases i - j,
{
    let x = order[j] as int;
    let u = order[i] as int;
    if j == i {
        lemma_reaches_itself(g, u);
    } else {
        assert(settled(g, all, order, j));
        assert(reaches(g, order[j] as int, u));
        if exists|t: int| 0 <= t <= j && #[trigger] order[t] == u {
            let t = choose|t: int| 0 <= t <= j && #[trigger] order[t] == u;
            assert(order[t] != order[i]);
        } else {
            assert(escapes(g, all, order, j));
            let v = choose|v: int| #[trigger]
                strongly_connected(g, order[j] as int, v) && open_above(all, order, j, v);
            lemma_reaches_transitive(g, v, x, u);
            // `v` lies in the graph, as it is reached.
            let walk = choose|walk: Seq<int>| #[trigger]
                is_walk(g, walk) && walk[0] == x && walk[walk.len() - 1] == v;
            crate::graphs::reachability::lemma_walk_end_in_range(g, walk);
            assert(listed(order, v));
            assert(!open_now(all, order, v));
            let t = choose|t: int| j < t < order.len() && #[trigger] order[t] == v;
            if visited[v] {
                assert(strongly_connected(g, v, x));
            }
            assert(!visited[order[t] as int]);
            assert(t <= i);
            lemma_reached_back(g, all, order, visited, i, t);
            lemma_reaches_transitive(g, u, v, x);
        }
    }
}

/// Along a walk from `root` on which no vertex was visited before, every
/// vertex has been visited since, if what has been visited since is closed
/// under the edges of the graph.
proof fn lemma_fresh_walk_is_visited(
    rev: Seq<Vec<usize>>,
    before: Seq<bool>,
    after: Seq<bool>,
    walk: Seq<int>,
    k: int,
)
    requires
        well_formed(rev),
        before.len() == rev.len(),
        after.len() == rev.len(),
        is_walk(rev, walk),
        0 <= k < walk.len(),
        after[walk[0]],
        forall|t: int| 0 <= t < walk.len() ==> 0 <= #[trigger] walk[t] < rev.len() && !before[walk[t]],
        forall|x: int, e: int|
            0 <= x < rev.len() && after[x] && !before[x] && 0 <= e < rev[x].len() ==> after[(
            #[trigger] rev[x][e]) as int],
    ensures
        after[walk[k]],
    decreases k,
{
    if k > 0 {
        lemma_fresh_walk_is_visited(rev, before, after, walk, k - 1);
        let x = walk[k - 1];
        assert(has_edge(rev, walk[k - 1], walk[k - 1 + 1]));
        let e = choose|e: int| 0 <= e < rev[x].len() && #[trigger] rev[x][e] == walk[k];
        assert(after[rev[x][e] as int]);
    }
}

/// Every vertex of a walk between two strongly connected vertices is
/// strongly connected to them.
proof fn lemma_walk_inside_component(g: Seq<Vec<usize>>, walk: Seq<int>, k: int)
    requires
        well_formed(g),
        is_walk(g, walk),
        0 <= k < walk.len(),
        reaches(g, walk[walk.len() - 1], walk[0]),
    ensures
        strongly_connected(g, walk[0], walk[k]),
        0 <= walk[k] < g.len(),
{
    crate::graphs::reachability::lemma_walk_prefix(g, walk, k);
    lemma_walk_suffix(g, walk, k);
    lemma_reaches_transitive(g, walk[k], walk[walk.len() - 1], walk[0]);
}

/// The search of the first pass and its scratch space.
pub struct Kosarajus {
    visited: Vec<bool>,
    order: Vec<usize>,
}

impl Kosarajus {
    /// Which vertices the last search has visited.
    pub closed spec fn marks(&self) -> Seq<bool> {
        self.visited@
    }

    /// The vertices in the order in which the last search has finished
    /// them.
    pub closed spec fn finished(&self) -> Seq<usize> {
        self.order@
    }

    /// A searcher with empty scratch space: it has visited and finished
    /// nothing.
    pub fn new() -> (searcher: Kosarajus)
        ensures
            searcher.marks() == Seq::<bool>::empty(),
            searcher.finished() == Seq::<usize>::empty(),
    {
        let searcher = Kosarajus { visited: Vec::new(), order: Vec::new() };
        assert(searcher.visited@ =~= Seq::<bool>::empty());
        assert(searcher.order@ =~= Seq::<usize>::empty());
        searcher
    }

    /// Visits `u` and everything that can be reached from it through
    /// vertices not visited before, and lists each of these vertices once
    /// everything reachable from it has been listed.
    fn dfs(&mut self, u: usize, al: &[Vec<usize>])
        requires
            exists|path: Seq<int>| #[trigger]
                ready(al@, old(self).visited@, old(self).order@, u as int, path),
        ensures
            first_pass(al@, final(self).visited@, final(self).order@),
            final(self).visited[u as int],
            forall|x: int| 0 <= x < old(self).visited.len() && old(self).visited[x] ==> final(self).visited[x],
            forall|x: int|
                0 <= x < old(self).visited.len() && final(self).visited[x] && !old(self).visited[x] ==> listed(final(self).order@, x),
            forall|x: int|
                listed(final(self).order@, x) ==> listed(old(self).order@, x) || (0 <= x < old(self).visited.len() && !old(self).visited[x]),
            old(self).order.len() <= final(self).order.len(),
            forall|i: int|
                0 <= i < old(self).order.len() ==> final(self).order[i] == old(self).order[i],
            final(self).order.len() - old(self).order.len() == unvisited(old(self).visited@)
                - unvisited(final(self).visited@),
            unvisited(final(self).visited@) >= 0,
        decreases unvisited(old(self).visited@),
    {
        let ghost path = choose|path: Seq<int>| #[trigger]
            ready(al@, old(self).visited@, old(self).order@, u as int, path);
        let ghost g = al@;
        let ghost n = al@.len() as int;
        let ghost visited0 = self.visited@;
        let ghost order0 = self.order@;
        proof {
            lemma_unvisited_after_visit(self.visited@, u as int);
        }
        self.visited[u] = true;
        proof {
            assert forall|i: int| 0 <= i < order0.len() implies #[trigger] settled(
                g,
                self.visited@,
                order0,
                i,
            ) by {
                lemma_settled_persists(g, visited0, order0, self.visited@, order0, i);
            }
            if listed(order0, u as int) {
                let i = choose|i: int| 0 <= i < order0.len() && #[trigger] order0[i] == u;
                assert(visited0[order0[i] as int]);
            }
        }
        let degree: usize = al[u].len();
        let mut k: usize = 0;
        while k < degree
            invariant
                g == al@,
                n == al@.len(),
                0 <= u < n,
                degree == g[u as int].len(),
                k <= degree,
                visited0 == old(self).visited@,
                order0 == old(self).order@,
                visited0.len() == n,
                !visited0[u as int],
                self.visited[u as int],
                !listed(self.order@, u as int),
                first_pass(g, self.visited@, self.order@),
                is_walk(g, path),
                path[path.len() - 1] == u,
                forall|x: int| 0 <= x < n && visited0[x] ==> self.visited[x],
                forall|x: int|
                    0 <= x < n && self.visited[x] && !visited0[x] && x != u ==> listed(
                        self.order@,
                        x,
                    ),
                forall|x: int|
                    listed(self.order@, x) ==> listed(order0, x) || (0 <= x < n && !visited0[x]),
                forall|x: int|
                    open_now(visited0, order0, x) ==> exists|j: int|
                        0 <= j < path.len() - 1 && #[trigger] path[j] == x,
                order0.len() <= self.order.len(),
                forall|i: int| 0 <= i < order0.len() ==> self.order[i] == order0[i],
                self.order.len() - order0.len() == unvisited(visited0) - 1 - unvisited(
                    self.visited@,
                ),
                0 <= unvisited(self.visited@) < unvisited(visited0),
                forall|j: int| 0 <= j < k ==> self.visited[(#[trigger] g[u as int][j]) as int],
            decreases degree - k,
        {
            let v: usize = al[u][k];
            if !self.visited[v] {
                let ghost order_before = self.order@;
                proof {
                    let longer = path.push(v as int);
                    assert(has_edge(g, u as int, v as int));
                    lemma_walk_push(g, path, v as int);
                    assert forall|x: int| open_now(self.visited@, self.order@, x) implies exists|j: int| 0 <= j < longer.len() - 1 && #[trigger] longer[j] == x by {
                        if x == u {
                            assert(longer[path.len() - 1] == u);
                        } else {
                            assert(visited0[x]);
                            if listed(order0, x) {
                                let t = choose|t: int|
                                    0 <= t < order0.len() && #[trigger] order0[t] == x;
                                assert(self.order[t] == x);
                            }
                            assert(open_now(visited0, order0, x));
                            let j = choose|j: int|
                                0 <= j < path.len() - 1 && #[trigger] path[j] == x;
                            assert(longer[j] == x);
                        }
                    }
                    assert(ready(g, self.visited@, self.order@, v as int, longer));
                }
                self.dfs(v, al);
                proof {
                    assert forall|x: int| listed(self.order@, x) implies listed(order0, x) || (0
                        <= x < n && !visited0[x]) by {
                        if listed(order_before, x) {
                        }
                    }
                    assert(!listed(self.order@, u as int));
                }
            }
            k = k + 1;
        }
        let ghost below = self.order@;
        let ghost marks = self.visited@;
        self.order.push(u);
        proof {
            let top = below.len() as int;
            let now = self.order@;
            assert(now[top] == u);
            assert forall|x: int| listed(now, x) implies listed(below, x) || x == u by {
                let t = choose|t: int| 0 <= t < now.len() && #[trigger] now[t] == x;
                if t < top {
                    assert(below[t] == x);
                }
            }
            assert forall|x: int| listed(below, x) implies listed(now, x) by {
                let t = choose|t: int| 0 <= t < below.len() && #[trigger] below[t] == x;
                assert(now[t] == x);
            }
            assert forall|i: int, j: int| 0 <= i < j < now.len() implies now[i] != now[j] by {
                if j == top && now[i] == u {
                    assert(below[i] == u);
                    assert(listed(below, u as int));
                }
            }
            assert forall|i: int, t: int|
                0 <= i < now.len() && 0 <= t < g[now[i] as int].len() implies marks[(
            #[trigger] g[now[i] as int][t]) as int] by {
                if i < top {
                    assert(below[i] == now[i]);
                    assert(marks[g[below[i] as int][t] as int]);
                }
            }
            assert forall|i: int| 0 <= i < now.len() implies #[trigger] settled(g, marks, now, i) by {
                if i < top {
                    lemma_settled_persists(g, marks, below, marks, now, i);
                } else {
                    assert forall|y: int| #[trigger] reaches(g, now[i] as int, y) implies (exists|j: int| 0 <= j <= i && #[trigger] now[j] == y) || escapes(g, marks, now, i) by {
                        let walk = choose|walk: Seq<int>| #[trigger]
                            is_walk(g, walk) && walk[0] == u && walk[walk.len() - 1] == y;
                        lemma_reaches_itself(g, u as int);
                        assert(listed(now, walk[0]));
                        lemma_walk_stays_finished(g, marks, now, u as int, walk);
                        if listed(now, y) {
                            let j = choose|j: int| 0 <= j < now.len() && #[trigger] now[j] == y;
                            assert(0 <= j <= i);
                        } else {
                            let v = choose|v: int| #[trigger]
                                open_now(marks, now, v) && reaches(g, u as int, v);
                            // An open vertex lies on the path, so it reaches `u`.
                            assert(v != u);
                            assert(visited0[v]) by {
                                if !visited0[v] {
                                    assert(listed(below, v));
                                }
                            }
                            if listed(order0, v) {
                                let t = choose|t: int|
                                    0 <= t < order0.len() && #[trigger] order0[t] == v;
                                assert(now[t] == v);
                            }
                            assert(open_now(visited0, order0, v));
                            let j = choose|j: int|
                                0 <= j < path.len() - 1 && #[trigger] path[j] == v;
                            lemma_walk_suffix(g, path, j);
                            assert(strongly_connected(g, now[i] as int, v));
                            assert(open_above(marks, now, i, v));
                        }
                    }
                }
            }
        }
    }

    /// Visits `u` and everything that can be reached from it through
    /// vertices not visited before, and adds each of these vertices to
    /// `components` once everything reachable from it has been added.
    fn dfs_rev(&mut self, u: usize, al: &[Vec<usize>], components: &mut Vec<usize>)
        requires
            well_formed(al@),
            old(self).visited.len() == al@.len(),
            u < al@.len(),
            !old(self).visited[u as int],
            forall|i: int|
                0 <= i < old(components).len() ==> (#[trigger] old(components)[i]) < al@.len()
                    && old(self).visited[old(components)[i] as int],
        ensures
            final(self).order == old(self).order,
            final(self).visited.len() == old(self).visited.len(),
            final(self).visited[u as int],
            forall|x: int| 0 <= x < al@.len() && old(self).visited[x] ==> final(self).visited[x],
            old(components).len() <= final(components).len(),
            forall|i: int|
                0 <= i < old(components).len() ==> final(components)[i] == old(components)[i],
            forall|i: int|
                old(components).len() <= i < final(components).len() ==> (
                #[trigger] final(components)[i]) < al@.len() && !old(self).visited[final(components)[i] as int] && final(self).visited[final(components)[i] as int],
            forall|i: int, j: int|
                old(components).len() <= i < j < final(components).len() ==> final(components)[i]
                    != final(components)[j],
            forall|x: int|
                0 <= x < al@.len() && final(self).visited[x] && !old(self).visited[x] ==> listed(
                    final(components)@,
                    x,
                ) && reaches(al@, u as int, x),
            forall|x: int, e: int|
                0 <= x < al@.len() && final(self).visited[x] && !old(self).visited[x] && 0 <= e
                    < al@[x].len() ==> final(self).visited[(#[trigger] al@[x][e]) as int],
            final(components).len() - old(components).len() == unvisited(old(self).visited@)
                - unvisited(final(self).visited@),
            unvisited(final(self).visited@) >= 0,
        decreases unvisited(old(self).visited@),
    {
        let ghost rev = al@;
        let ghost n = al@.len() as int;
        let ghost visited0 = self.visited@;
        let ghost listed0 = components@;
        proof {
            lemma_unvisited_after_visit(self.visited@, u as int);
            lemma_reaches_itself(rev, u as int);
        }
        self.visited[u] = true;
        let degree: usize = al[u].len();
        let mut k: usize = 0;
        while k < degree
            invariant
                rev == al@,
                n == al@.len(),
                well_formed(rev),
                0 <= u < n,
                degree == rev[u as int].len(),
                k <= degree,
                self.order == old(self).order,
                visited0 == old(self).visited@,
                listed0 == old(components)@,
                visited0.len() == n,
                self.visited.len() == n,
                !visited0[u as int],
                self.visited[u as int],
                forall|x: int| 0 <= x < n && visited0[x] ==> self.visited[x],
                listed0.len() <= components.len(),
                forall|i: int| 0 <= i < listed0.len() ==> components[i] == listed0[i],
                forall|i: int|
                    0 <= i < listed0.len() ==> (#[trigger] listed0[i]) < n
                        && visited0[listed0[i] as int],
                forall|i: int|
                    listed0.len() <= i < components.len() ==> (#[trigger] components[i]) < n
                        && !visited0[components[i] as int] && self.visited[components[i] as int]
                        && components[i] != u,
                forall|i: int, j: int|
                    listed0.len() <= i < j < components.len() ==> components[i] != components[j],
                forall|x: int|
                    0 <= x < n && self.visited[x] && !visited0[x] ==> reaches(rev, u as int, x),
                forall|x: int|
                    0 <= x < n && self.visited[x] && !visited0[x] && x != u ==> listed(
                        components@,
                        x,
                    ),
                forall|x: int, e: int|
                    0 <= x < n && self.visited[x] && !visited0[x] && x != u && 0 <= e
                        < rev[x].len() ==> self.visited[(#[trigger] rev[x][e]) as int],
                forall|j: int| 0 <= j < k ==> self.visited[(#[trigger] rev[u as int][j]) as int],
                components.len() - listed0.len() == unvisited(visited0) - 1 - unvisited(
                    self.visited@,
                ),
                0 <= unvisited(self.visited@) < unvisited(visited0),
            decreases degree - k,
        {
            let v: usize = al[u][k];
            if !self.visited[v] {
                let ghost marks = self.visited@;
                let ghost so_far = components@;
                proof {
                    assert forall|i: int| 0 <= i < so_far.len() implies (#[trigger] so_far[i]) < n
                        && marks[so_far[i] as int] by {
                        if i < listed0.len() {
                            assert(so_far[i] == listed0[i]);
                        }
                    }
                    assert(has_edge(rev, u as int, v as int));
                    lemma_edge_reaches(rev, u as int, v as int);
                }
                self.dfs_rev(v, al, components);
                proof {
                    assert forall|x: int|
                        0 <= x < n && self.visited[x] && !visited0[x] implies reaches(
                        rev,
                        u as int,
                        x,
                    ) by {
                        if !marks[x] {
                            lemma_reaches_transitive(rev, u as int, v as int, x);
                        }
                    }
                    assert forall|x: int|
                        0 <= x < n && self.visited[x] && !visited0[x] && x != u implies listed(
                        components@,
                        x,
                    ) by {
                        if marks[x] {
                            let t = choose|t: int| 0 <= t < so_far.len() && #[trigger] so_far[t] == x;
                            assert(components[t] == x);
                        }
                    }
                    assert forall|i: int, j: int|
                        listed0.len() <= i < j < components.len() implies components[i]
                        != components[j] by {
                        if i < so_far.len() && j >= so_far.len() {
                            assert(components[i] == so_far[i]);
                            assert(marks[so_far[i] as int]);
                        } else if j < so_far.len() {
                            assert(components[i] == so_far[i]);
                            assert(components[j] == so_far[j]);
                        }
                    }
                    assert forall|i: int| listed0.len() <= i < components.len() implies (
                    #[trigger] components[i]) < n && !visited0[components[i] as int]
                        && self.visited[components[i] as int] && components[i] != u by {
                        if i < so_far.len() {
                            assert(components[i] == so_far[i]);
                        }
                    }
                }
            }
            k = k + 1;
        }
        let ghost below = components@;
        components.push(u);
        proof {
            let top = below.len() as int;
            assert(components@[top] == u);
            assert forall|x: int|
                0 <= x < n && self.visited[x] && !visited0[x] implies listed(components@, x) by {
                if x != u {
                    let t = choose|t: int| 0 <= t < below.len() && #[trigger] below[t] == x;
                    assert(components@[t] == x);
                }
            }
            assert forall|i: int, j: int|
                listed0.len() <= i < j < components.len() implies components[i]
                != components[j] by {
                if j < top {
                    assert(components[i] == below[i]);
                    assert(components[j] == below[j]);
                } else {
                    assert(components[i] == below[i]);
                }
            }
            assert forall|i: int| listed0.len() <= i < components.len() implies (
            #[trigger] components[i]) < n && !visited0[components[i] as int]
                && self.visited[components[i] as int] by {
                if i < top {
                    assert(components[i] == below[i]);
                }
            }
        }
    }

    /// The strongly connected components of the graph given by its
    /// adjacency lists.
    pub fn kosarajus(&mut self, al: &[Vec<usize>]) -> (found: Result<
        Vec<Vec<usize>>,
        ComponentsError,
    >)
        requires
            well_formed(al@),
        ensures
            found is Ok,
            are_strong_components(al@, found.unwrap()@),
    {
        let n: usize = al.len();
        let ghost g = al@;
        let mut al_rev: Vec<Vec<usize>> = Vec::new();
        let mut u: usize = 0;
        while u < n
            invariant
                u <= n,
                al_rev.len() == u,
                forall|v: int| 0 <= v < u ==> (#[trigger] al_rev[v]).len() == 0,
            decreases n - u,
        {
            al_rev.push(Vec::new());
            u = u + 1;
        }
        u = 0;
        while u < n
            invariant
                g == al@,
                n == g.len(),
                well_formed(g),
                u <= n,
                al_rev.len() == n,
                well_formed(al_rev@),
                forall|a: int, b: int|
                    #[trigger] has_edge(al_rev@, b, a) <==> edge_before(g, a, b, u as int, 0),
            decreases n - u,
        {
            let degree: usize = al[u].len();
            let mut k: usize = 0;
            while k < degree
                invariant
                    g == al@,
                    n == g.len(),
                    well_formed(g),
                    u < n,
                    degree == g[u as int].len(),
                    k <= degree,
                    al_rev.len() == n,
                    well_formed(al_rev@),
                    forall|a: int, b: int|
                        #[trigger] has_edge(al_rev@, b, a) <==> edge_before(
                            g,
                            a,
                            b,
                            u as int,
                            k as int,
                        ),
                decreases degree - k,
            {
                let v: usize = al[u][k];
                let ghost before = al_rev@;
                al_rev[v].push(u);
                proof {
                    let after = al_rev@;
                    assert forall|x: int, i: int| 0 <= x < n && 0 <= i < after[x].len() implies (
                    #[trigger] after[x][i]) < n by {
                        if x == v && i == before[x].len() {
                        } else {
                            assert(after[x][i] == before[x][i]);
                        }
                    }
                    assert forall|a: int, b: int| #[trigger] has_edge(after, b, a) <==> edge_before(
                        g,
                        a,
                        b,
                        u as int,
                        k + 1,
                    ) by {
                        if has_edge(after, b, a) {
                            let i = choose|i: int| 0 <= i < after[b].len() && #[trigger] after[b][i] == a;
                            if b == v && i == before[b].len() {
                                assert(g[u as int][k as int] == v);
                            } else {
                                assert(before[b][i] == a);
                                assert(has_edge(before, b, a));
                                assert(edge_before(g, a, b, u as int, k as int));
                                let t = choose|t: int|
                                    0 <= t < g[a].len() && #[trigger] g[a][t] == b && (a < u || (a
                                        == u && t < k));
                                assert(g[a][t] == b);
                            }
                        }
                        if edge_before(g, a, b, u as int, k + 1) {
                            let t = choose|t: int|
                                0 <= t < g[a].len() && #[trigger] g[a][t] == b && (a < u || (a == u
                                    && t < k + 1));
                            if a == u && t == k {
                                assert(after[v as int][before[v as int].len() as int] == u);
                            } else {
                                assert(g[a][t] == b);
                                assert(edge_before(g, a, b, u as int, k as int));
                                assert(has_edge(before, b, a));
                                let i = choose|i: int|
                                    0 <= i < before[b].len() && #[trigger] before[b][i] == a;
                                assert(after[b][i] == a);
                            }
                        }
                    }
                }
                k = k + 1;
            }
            proof {
                assert forall|a: int, b: int| #[trigger] has_edge(al_rev@, b, a) <==> edge_before(
                    g,
                    a,
                    b,
                    u + 1,
                    0,
                ) by {
                    if edge_before(g, a, b, u as int, degree as int) {
                        let t = choose|t: int|
                            0 <= t < g[a].len() && #[trigger] g[a][t] == b && (a < u || (a == u
                                && t < degree));
                        assert(g[a][t] == b);
                    }
                    if edge_before(g, a, b, u + 1, 0) {
                        let t = choose|t: int|
                            0 <= t < g[a].len() && #[trigger] g[a][t] == b && (a < u + 1 || (a == u
                                + 1 && t < 0));
                        assert(g[a][t] == b);
                    }
                }
            }
            u = u + 1;
        }
        let ghost rev = al_rev@;
        proof {
            assert forall|a: int, b: int| #[trigger] has_edge(rev, b, a) <==> has_edge(g, a, b) by {
                if edge_before(g, a, b, n as int, 0) {
                }
                if has_edge(g, a, b) {
                    let t = choose|t: int| 0 <= t < g[a].len() && #[trigger] g[a][t] == b;
                    assert(g[a][t] == b);
                    assert(edge_before(g, a, b, n as int, 0));
                }
            }
            assert(is_reverse(g, rev));
        }
        self.visited = vec![false; n];
        self.order = Vec::new();
        proof {
            lemma_sum_congruence(|i: int| unvisited_term(self.visited@, i), |i: int| 1int, n as int);
            lemma_sum_of_ones(n as int);
        }
        u = 0;
        while u < n
            invariant
                g == al@,
                n == g.len(),
                u <= n,
                first_pass(g, self.visited@, self.order@),
                forall|x: int| 0 <= x < u ==> self.visited[x],
                forall|x: int| 0 <= x < n && self.visited[x] ==> listed(self.order@, x),
                self.order.len() + unvisited(self.visited@) == n,
                unvisited(self.visited@) >= 0,
            decreases n - u,
        {
            if !self.visited[u] {
                proof {
                    let path = seq![u as int];
                    assert(is_walk(g, path));
                    assert(ready(g, self.visited@, self.order@, u as int, path));
                }
                self.dfs(u, al);
            }
            u = u + 1;
        }
        let ghost all = self.visited@;
        let ghost order = self.order@;
        let order_len: usize = self.order.len();
        // A fresh scratch space for the second pass.
        let mut w: usize = 0;
        while w < n
            invariant
                w <= n,
                self.visited.len() == n,
                self.order@ == order,
                forall|x: int| 0 <= x < w ==> !self.visited[x],
            decreases n - w,
        {
            self.visited[w] = false;
            w = w + 1;
        }
        let mut components: Vec<Vec<usize>> = Vec::new();
        let mut idx: usize = order_len;
        proof {
            lemma_sum_congruence(|i: int| unvisited_term(self.visited@, i), |i: int| 1int, n as int);
            lemma_sum_of_ones(n as int);
        }
        while idx > 0
            invariant
                g == al@,
                n == g.len(),
                rev == al_rev@,
                is_reverse(g, rev),
                well_formed(g),
                first_pass(g, all, order),
                forall|v: int| 0 <= v < n ==> listed(order, v),
                self.order@ == order,
                order_len == order.len(),
                idx <= order_len,
                self.visited.len() == n,
                closed(g, self.visited@),
                forall|t: int| idx <= t < order.len() ==> self.visited[(#[trigger] order[t]) as int],
                separated(g, components@),
                forall|v: int| 0 <= v < n && self.visited[v] ==> #[trigger] covered(components@, v),
                forall|c: int, v: int|
                    #[trigger] in_component(components@, c, v) ==> 0 <= v < n && self.visited[v],
                unvisited(self.visited@) >= 0,
            decreases idx,
        {
            let root: usize = self.order[idx - 1];
            if !self.visited[root] {
                let mut component: Vec<usize> = Vec::new();
                let ghost before = self.visited@;
                let ghost earlier = components@;
                self.dfs_rev(root, al_rev.as_slice(), &mut component);
                proof {
                    let after = self.visited@;
                    let fresh = component@;
                    // What was added is strongly connected to the root.
                    assert forall|x: int| listed(fresh, x) implies strongly_connected(
                        g,
                        root as int,
                        x,
                    ) && !before[x] && after[x] && 0 <= x < n by {
                        let t = choose|t: int| 0 <= t < fresh.len() && #[trigger] fresh[t] == x;
                        assert(fresh[t] < n);
                        assert(reaches(rev, root as int, x));
                        lemma_reverse_reaches_back(g, rev, x, root as int);
                        assert(listed(order, x));
                        let j = choose|j: int| 0 <= j < order.len() && #[trigger] order[j] == x;
                        if j > idx - 1 {
                            assert(before[order[j] as int]);
                        }
                        lemma_reached_back(g, all, order, before, idx - 1, j);
                    }
                    // What is strongly connected to the root was added.
                    assert forall|y: int|
                        0 <= y < n && strongly_connected(g, root as int, y) implies listed(
                        fresh,
                        y,
                    ) by {
                        lemma_reverse_reaches(g, rev, y, root as int);
                        let walk = choose|walk: Seq<int>| #[trigger]
                            is_walk(rev, walk) && walk[0] == root && walk[walk.len() - 1] == y;
                        lemma_reverse_reaches(g, rev, root as int, y);
                        assert forall|t: int| 0 <= t < walk.len() implies 0 <= #[trigger] walk[t]
                            < rev.len() && !before[walk[t]] by {
                            lemma_walk_inside_component(rev, walk, t);
                            lemma_reverse_reaches_back(g, rev, root as int, walk[t]);
                            lemma_reverse_reaches_back(g, rev, walk[t], root as int);
                            if before[walk[t]] {
                                assert(strongly_connected(g, walk[t], root as int));
                            }
                        }
                        lemma_fresh_walk_is_visited(rev, before, after, walk, walk.len() - 1);
                    }
                    assert forall|a: int, b: int|
                        0 <= a < n && 0 <= b < n && after[a] && #[trigger] strongly_connected(
                            g,
                            a,
                            b,
                        ) implies after[b] by {
                        if before[a] {
                            assert(before[b]);
                        } else {
                            assert(listed(fresh, a));
                            lemma_strongly_connected_transitive(g, root as int, a, b);
                            assert(listed(fresh, b));
                        }
                    }
                }
                components.push(component);
                proof {
                    let now = components@;
                    let last = earlier.len() as int;
                    let fresh = now[last]@;
                    assert forall|c: int, v: int| #[trigger] in_component(now, c, v) implies (if c
                        < last {
                        in_component(earlier, c, v)
                    } else {
                        c == last && listed(fresh, v)
                    }) by {
                        if c < last {
                            assert(now[c] == earlier[c]);
                        }
                    }
                    assert forall|c: int, v: int| in_component(earlier, c, v) implies #[trigger] in_component(
                        now,
                        c,
                        v,
                    ) by {
                        assert(now[c] == earlier[c]);
                    }
                    assert forall|v: int| 0 <= v < n && self.visited[v] implies #[trigger] covered(
                        now,
                        v,
                    ) by {
                        if before[v] {
                            assert(covered(earlier, v));
                            let c = choose|c: int| #[trigger] in_component(earlier, c, v);
                            assert(in_component(now, c, v));
                        } else {
                            assert(listed(fresh, v));
                            assert(in_component(now, last, v));
                        }
                    }
                    assert forall|c: int, i: int|
                        0 <= c < now.len() && 0 <= i < now[c].len() implies (#[trigger] now[c][i])
                        < n by {
                        if c < last {
                            assert(now[c] == earlier[c]);
                        }
                    }
                    assert forall|c: int, i: int, j: int|
                        0 <= c < now.len() && 0 <= i < j < now[c].len() implies now[c][i]
                        != now[c][j] by {
                        if c < last {
                            assert(now[c] == earlier[c]);
                        }
                    }
                    assert forall|c: int, a: int, b: int|
                        #[trigger] in_component(now, c, a) && #[trigger] in_component(
                            now,
                            c,
                            b,
                        ) implies strongly_connected(g, a, b) by {
                        if c < last {
                            assert(in_component(earlier, c, a));
                            assert(in_component(earlier, c, b));
                        } else {
                            assert(strongly_connected(g, a, root as int));
                            lemma_strongly_connected_transitive(g, a, root as int, b);
                        }
                    }
                    assert forall|c: int, d: int, a: int, b: int|
                        c != d && #[trigger] in_component(now, c, a) && #[trigger] in_component(
                            now,
                            d,
                            b,
                        ) implies !strongly_connected(g, a, b) by {
                        if c < last && d < last {
                            assert(in_component(earlier, c, a));
                            assert(in_component(earlier, d, b));
                        } else if c < last {
                            assert(in_component(earlier, c, a));
                            if strongly_connected(g, a, b) {
                                assert(before[b]);
                            }
                        } else {
                            assert(in_component(earlier, d, b));
                            if strongly_connected(g, a, b) {
                                assert(strongly_connected(g, b, a));
                                assert(before[a]);
                            }
                        }
                    }
                }
            }
            idx = idx - 1;
        }
        proof {
            assert forall|v: int| 0 <= v < g.len() implies #[trigger] covered(components@, v) by {
                assert(listed(order, v));
                let t = choose|t: int| 0 <= t < order.len() && #[trigger] order[t] == v;
                assert(self.visited[order[t] as int]);
            }
        }
        Ok(components)
    }
}

/// The sum of `k` ones is `k`.
proof fn lemma_sum_of_ones(k: int)
    requires
        k >= 0,
    ensures
        sum_to(|i: int| 1int, k) == k,
    decreases k,
{
    if k > 0 {
        lemma_sum_of_ones(k - 1);
    }
}

} // verus!
