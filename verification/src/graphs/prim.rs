//! A spanning tree grown from vertex zero, one edge at a time: of the edges
//! that lead from the tree to a vertex outside it, the heaviest is taken,
//! and of several that are equally heavy the one from the vertex with the
//! greatest index, to the vertex with the greatest index.

use crate::graphs::min_spanning_tree::{total_weight, Edge, SpanningTreeError};
use crate::summation::{lemma_sum_point_update, lemma_sum_prefix, sum_to};
use vstd::prelude::*;

verus! {

/// The largest absolute value that a weight may have in a graph of `n`
/// vertices, for the weight of a tree to fit in an `i32`.
pub open spec fn weight_limit(n: int) -> int {
    i32::MAX as int / n
}

/// The list of `from` holds an entry for `to` with the weight `w`.
pub open spec fn has_entry(adj: Seq<Seq<(usize, i32)>>, from: int, to: int, w: int) -> bool {
    &&& 0 <= from < adj.len()
    &&& exists|k: int|
        0 <= k < adj[from].len() && (#[trigger] adj[from][k]).0 == to && adj[from][k].1 == w
}

/// Vertex `x` belongs to the tree that the first `i` edges of `mst` make:
/// it is vertex zero, or one of these edges leads to it.
pub open spec fn in_tree(mst: Seq<Edge>, i: int, x: int) -> bool {
    x == 0 || exists|j: int| 0 <= j < i && (#[trigger] mst[j]).to == x
}

/// An edge of weight `w` leads from `from`, in the tree of the first `i`
/// edges of `mst`, to `to`, outside it.
pub open spec fn crossing(
    adj: Seq<Seq<(usize, i32)>>,
    mst: Seq<Edge>,
    i: int,
    w: int,
    from: int,
    to: int,
) -> bool {
    &&& in_tree(mst, i, from)
    &&& !in_tree(mst, i, to)
    &&& 0 <= to < adj.len()
    &&& has_entry(adj, from, to, w)
}

/// The first edge comes no earlier than the second where edges are ordered
/// by weight, then by the vertex they start from, then by the vertex they
/// lead to.
pub open spec fn at_least(w: int, from: int, to: int, v: int, start: int, end: int) -> bool {
    w > v || (w == v && (from > start || (from == start && to >= end)))
}

/// Every edge of `mst` is the greatest of those that cross from the tree
/// of the edges before it, and no edge crosses from the tree of all of
/// them.
pub open spec fn is_heaviest_first(adj: Seq<Seq<(usize, i32)>>, mst: Seq<Edge>) -> bool {
    &&& grown_heaviest_first(adj, mst)
    &&& forall|w: int, from: int, to: int| !#[trigger] crossing(adj, mst, mst.len() as int, w, from, to)
}

/// Every edge of `mst` is the greatest of those that cross from the tree
/// of the edges before it.
pub open spec fn grown_heaviest_first(adj: Seq<Seq<(usize, i32)>>, mst: Seq<Edge>) -> bool {
    forall|i: int|
        0 <= i < mst.len() ==> #[trigger] crossing(
            adj,
            mst,
            i,
            mst[i].weight as int,
            mst[i].from as int,
            mst[i].to as int,
        ) && forall|w: int, from: int, to: int| #[trigger]
            crossing(adj, mst, i, w, from, to) ==> at_least(
                mst[i].weight as int,
                mst[i].from as int,
                mst[i].to as int,
                w,
                from,
                to,
            )
}

/// One if vertex `i` is not visited, else zero.
pub open spec fn unvisited_term(visited: Seq<bool>, i: int) -> int {
    if visited[i] {
        0
    } else {
        1
    }
}

/// How many vertices are not visited.
pub open spec fn unvisited(visited: Seq<bool>) -> int {
    sum_to(|i: int| unvisited_term(visited, i), visited.len() as int)
}

/// Visiting a vertex leaves one unvisited vertex less.
proof fn lemma_unvisited_after_visit(visited: Seq<bool>, v: int)
    requires
        0 <= v < visited.len(),
        !visited[v],
    ensures
        unvisited(visited.update(v, true)) == unvisited(visited) - 1,
        unvisited(visited.update(v, true)) >= 0,
{
    let after = visited.update(v, true);
    lemma_sum_point_update(
        |i: int| unvisited_term(visited, i),
        |i: int| unvisited_term(after, i),
        visited.len() as int,
        v,
    );
    lemma_sum_prefix(|i: int| unvisited_term(after, i), 0, visited.len() as int);
}

/// No more vertices are unvisited than there are.
proof fn lemma_unvisited_at_most(visited: Seq<bool>, k: int)
    requires
        0 <= k,
    ensures
        0 <= sum_to(|i: int| unvisited_term(visited, i), k) <= k,
    decreases k,
{
    if k > 0 {
        lemma_unvisited_at_most(visited, k - 1);
    }
}

/// What the limit on the weights leaves room for.
proof fn lemma_weight_limit(n: int, k: int)
    requires
        1 <= n,
        0 <= k < n,
    ensures
        0 <= weight_limit(n),
        0 <= k * weight_limit(n),
        k * weight_limit(n) + weight_limit(n) <= i32::MAX,
        (k + 1) * weight_limit(n) == k * weight_limit(n) + weight_limit(n),
{
    let limit = weight_limit(n);
    assert(0 <= limit && n * limit <= i32::MAX) by (nonlinear_arith)
        requires
            limit == i32::MAX as int / n,
            n >= 1,
    ;
    assert(0 <= k * limit && k * limit + limit <= n * limit && (k + 1) * limit == k * limit
        + limit) by (nonlinear_arith)
        requires
            0 <= limit,
            0 <= k < n,
    ;
}

/// The index of the greatest of the pending edges.
fn greatest(pending: &Vec<(i32, usize, usize)>) -> (at: usize)
    requires
        pending.len() > 0,
    ensures
        at < pending.len(),
        forall|i: int|
            0 <= i < pending.len() ==> at_least(
                pending[at as int].0 as int,
                pending[at as int].1 as int,
                pending[at as int].2 as int,
                (#[trigger] pending[i]).0 as int,
                pending[i].1 as int,
                pending[i].2 as int,
            ),
{
    let mut at: usize = 0;
    let mut i: usize = 1;
    while i < pending.len()
        invariant
            1 <= i <= pending.len(),
            at < i,
            forall|j: int|
                0 <= j < i ==> at_least(
                    pending[at as int].0 as int,
                    pending[at as int].1 as int,
                    pending[at as int].2 as int,
                    (#[trigger] pending[j]).0 as int,
                    pending[j].1 as int,
                    pending[j].2 as int,
                ),
        decreases pending.len() - i,
    {
        let best = pending[at];
        let next = pending[i];
        if next.0 > best.0 || (next.0 == best.0 && (next.1 > best.1 || (next.1 == best.1 && next.2
            > best.2))) {
            at = i;
        }
        i += 1;
    }
    at
}

/// An edge of weight `w` from `from` to `to` is among the pending ones.
pub open spec fn is_pending(pending: Seq<(i32, usize, usize)>, w: int, from: int, to: int) -> bool {
    exists|i: int|
        0 <= i < pending.len() && (#[trigger] pending[i]).0 == w && pending[i].1 == from
            && pending[i].2 == to
}

/// Which vertices belong to the tree of the first `i` edges does not
/// depend on the edges that follow.
proof fn lemma_in_tree_of_prefix(mst: Seq<Edge>, e: Edge, i: int, x: int)
    requires
        0 <= i <= mst.len(),
    ensures
        in_tree(mst.push(e), i, x) <==> in_tree(mst, i, x),
{
    let longer = mst.push(e);
    if in_tree(mst, i, x) && x != 0 {
        let j = choose|j: int| 0 <= j < i && (#[trigger] mst[j]).to == x;
        assert(longer[j].to == x);
    }
    if in_tree(longer, i, x) && x != 0 {
        let j = choose|j: int| 0 <= j < i && (#[trigger] longer[j]).to == x;
        assert(mst[j].to == x);
    }
}

/// The edges of a graph, to be spanned from vertex zero.
pub struct Prim {
    num_nodes: usize,
    adj_list: Vec<Vec<(usize, i32)>>,
}

impl Prim {
    /// The number of vertices.
    pub closed spec fn nodes(&self) -> nat {
        self.num_nodes as nat
    }

    /// For every vertex the vertices that it has an edge to, each with the
    /// weight of the edge, in the order in which the edges were added.
    pub closed spec fn adjacency(&self) -> Seq<Seq<(usize, i32)>> {
        Seq::new(self.adj_list.len() as nat, |i: int| self.adj_list[i]@)
    }

    /// Every vertex has its list, and every entry names a vertex.
    pub closed spec fn wf(&self) -> bool {
        &&& self.adj_list.len() == self.num_nodes
        &&& forall|u: int, k: int|
            0 <= u < self.adj_list.len() && 0 <= k < self.adj_list[u].len() ==> (
            #[trigger] self.adj_list[u][k]).0 < self.num_nodes
    }

    /// No weight is beyond the limit.
    pub open spec fn weights_fit(&self) -> bool {
        forall|u: int, k: int|
            0 <= u < self.adjacency().len() && 0 <= k < self.adjacency()[u].len() ==> -weight_limit(
                self.nodes() as int,
            ) <= (#[trigger] self.adjacency()[u][k]).1 <= weight_limit(self.nodes() as int)
    }

    /// A graph of `num_nodes` vertices and no edges.
    pub fn new(num_nodes: usize) -> (graph: Prim)
        ensures
            graph.wf(),
            graph.nodes() == num_nodes,
            graph.adjacency() == Seq::new(num_nodes as nat, |i: int| Seq::<(usize, i32)>::empty()),
    {
        let mut adj_list: Vec<Vec<(usize, i32)>> = Vec::new();
        let mut i: usize = 0;
        while i < num_nodes
            invariant
                i <= num_nodes,
                adj_list.len() == i,
                forall|u: int| 0 <= u < i ==> (#[trigger] adj_list[u]).len() == 0,
            decreases num_nodes - i,
        {
            adj_list.push(Vec::new());
            i += 1;
        }
        let graph = Prim { num_nodes, adj_list };
        assert(graph.adjacency() =~~= Seq::new(
            num_nodes as nat,
            |i: int| Seq::<(usize, i32)>::empty(),
        ));
        graph
    }

    /// Adds an edge between `from` and `to` of the given weight, noted in
    /// the lists of both. Refused, with nothing changed, if either end is
    /// not a vertex.
    pub fn add_edge(&mut self, from: usize, to: usize, weight: i32) -> (added: Result<
        (),
        SpanningTreeError,
    >)
        requires
            old(self).wf(),
        ensures
            final(self).wf(),
            final(self).nodes() == old(self).nodes(),
            from < old(self).nodes() && to < old(self).nodes() ==> added is Ok && ({
                let there = old(self).adjacency().update(
                    from as int,
                    old(self).adjacency()[from as int].push((to, weight)),
                );
                final(self).adjacency() == there.update(
                    to as int,
                    there[to as int].push((from, weight)),
                )
            }),
            !(from < old(self).nodes() && to < old(self).nodes()) ==> added == Err::<
                (),
                SpanningTreeError,
            >(SpanningTreeError::InvalidNode) && final(self).adjacency() == old(self).adjacency(),
    {
        if self.num_nodes <= from || self.num_nodes <= to {
            return Err(SpanningTreeError::InvalidNode);
        }
        let ghost before = self.adjacency();
        self.adj_list[from].push((to, weight));
        let ghost middle = self.adjacency();
        self.adj_list[to].push((from, weight));
        proof {
            assert(middle =~~= before.update(from as int, before[from as int].push((to, weight))));
            assert(self.adjacency() =~~= middle.update(
                to as int,
                middle[to as int].push((from, weight)),
            ));
        }
        Ok(())
    }

    /// The tree that grows from vertex zero by the heaviest edge that
    /// leaves it, and the weight of the tree.
    pub fn min_spanning_tree(&self) -> (found: Result<(i32, Vec<Edge>), SpanningTreeError>)
        requires
            self.wf(),
            self.nodes() >= 1,
            self.weights_fit(),
        ensures
            found is Ok,
            is_heaviest_first(self.adjacency(), found.unwrap().1@),
            found.unwrap().0 == total_weight(found.unwrap().1@),
    {
        let n: usize = self.num_nodes;
        let ghost adj = self.adjacency();
        let ghost limit = weight_limit(n as int);
        let mut visited: Vec<bool> = vec![false; n];
        let mut mst: Vec<Edge> = Vec::new();
        let mut mst_cost: i32 = 0;
        let mut pq: Vec<(i32, usize, usize)> = Vec::new();
        pq.push((0, 0, 0));
        let ghost mut started = false;
        proof {
            lemma_unvisited_at_most(visited@, n as int);
            lemma_weight_limit(n as int, 0);
        }
        while pq.len() > 0
            invariant
                n == self.num_nodes,
                n >= 1,
                self.wf(),
                self.weights_fit(),
                adj == self.adjacency(),
                limit == weight_limit(n as int),
                0 <= limit,
                visited.len() == n,
                !started ==> pq.len() == 1 && pq[0] == (0i32, 0usize, 0usize) && mst.len() == 0
                    && mst_cost == 0 && forall|x: int| 0 <= x < n ==> !#[trigger] visited[x],
                started ==> forall|x: int|
                    0 <= x < n ==> (#[trigger] visited[x] <==> in_tree(
                        mst@,
                        mst.len() as int,
                        x,
                    )),
                started ==> mst.len() + unvisited(visited@) <= n - 1,
                0 <= unvisited(visited@) <= n,
                forall|e: int| 0 <= e < mst.len() ==> (#[trigger] mst[e]).to < n,
                started ==> forall|i: int|
                    0 <= i < pq.len() ==> (#[trigger] pq[i]).1 < n && pq[i].2 < n
                        && visited[pq[i].1 as int] && has_entry(
                        adj,
                        pq[i].1 as int,
                        pq[i].2 as int,
                        pq[i].0 as int,
                    ),
                started ==> forall|w: int, from: int, to: int| #[trigger]
                    crossing(adj, mst@, mst.len() as int, w, from, to) ==> is_pending(
                        pq@,
                        w,
                        from,
                        to,
                    ),
                grown_heaviest_first(adj, mst@),
                mst_cost == total_weight(mst@),
                -(mst.len() * limit) <= mst_cost <= mst.len() * limit,
            decreases unvisited(visited@), pq.len(),
        {
            let at = greatest(&pq);
            let ghost pending = pq@;
            let ghost taken = mst@;
            let ghost seen = visited@;
            let last = pq.pop().unwrap();
            let (weight, from, to) = if at < pq.len() {
                let best = pq[at];
                pq.set(at, last);
                best
            } else {
                last
            };
            proof {
                assert(pending[at as int] == (weight, from, to));
                // Whatever was pending still is, but for the edge taken out.
                assert forall|w: int, f: int, t: int|
                    is_pending(pending, w, f, t) && !(w == weight && f == from && t
                        == to) implies #[trigger] is_pending(pq@, w, f, t) by {
                    let i = choose|i: int|
                        0 <= i < pending.len() && (#[trigger] pending[i]).0 == w && pending[i].1
                            == f && pending[i].2 == t;
                    if i == pending.len() - 1 {
                        assert(pq[at as int] == pending[i]);
                    } else {
                        assert(pq[i] == pending[i]);
                    }
                }
                assert forall|i: int| 0 <= i < pq.len() implies exists|j: int|
                    0 <= j < pending.len() && #[trigger] pq[i] == pending[j] by {
                    if i == at {
                        assert(pq[i] == pending[pending.len() - 1]);
                    } else {
                        assert(pq[i] == pending[i]);
                    }
                }
                if started {
                    assert(pending[at as int].2 < n);
                }
            }
            if !visited[to] {
                proof {
                    lemma_unvisited_after_visit(visited@, to as int);
                    if started {
                        assert(in_tree(taken, taken.len() as int, 0));
                        assert(visited[0]);
                        assert(to != 0);
                        lemma_weight_limit(n as int, mst.len() as int);
                        assert(has_entry(adj, from as int, to as int, weight as int));
                        let k = choose|k: int|
                            0 <= k < adj[from as int].len() && (#[trigger] adj[from as int][k]).0
                                == to && adj[from as int][k].1 == weight;
                        assert(-limit <= adj[from as int][k].1 <= limit);
                    }
                }
                visited.set(to, true);
                mst_cost += weight;
                if to != 0 {
                    mst.push(Edge { from, to, weight });
                }
                proof {
                    if started {
                        let e = Edge { from, to, weight };
                        assert(mst@ == taken.push(e));
                        assert(mst@.drop_last() =~= taken);
                        assert(crossing(
                            adj,
                            taken,
                            taken.len() as int,
                            weight as int,
                            from as int,
                            to as int,
                        ));
                        assert forall|i: int, w: int, f: int, t: int|
                            0 <= i <= taken.len() implies (#[trigger] crossing(adj, mst@, i, w, f, t)
                            <==> crossing(adj, taken, i, w, f, t)) by {
                            lemma_in_tree_of_prefix(taken, e, i, f);
                            lemma_in_tree_of_prefix(taken, e, i, t);
                        }
                        assert forall|i: int| 0 <= i < mst.len() implies #[trigger] crossing(
                            adj,
                            mst@,
                            i,
                            mst[i].weight as int,
                            mst[i].from as int,
                            mst[i].to as int,
                        ) && forall|w: int, f: int, t: int| #[trigger]
                            crossing(adj, mst@, i, w, f, t) ==> at_least(
                                mst[i].weight as int,
                                mst[i].from as int,
                                mst[i].to as int,
                                w,
                                f,
                                t,
                            ) by {
                            if i < taken.len() {
                                assert(mst[i] == taken[i]);
                                assert(crossing(
                                    adj,
                                    taken,
                                    i,
                                    taken[i].weight as int,
                                    taken[i].from as int,
                                    taken[i].to as int,
                                ));
                            } else {
                                assert forall|w: int, f: int, t: int| #[trigger]
                                    crossing(adj, mst@, i, w, f, t) implies at_least(
                                    weight as int,
                                    from as int,
                                    to as int,
                                    w,
                                    f,
                                    t,
                                ) by {
                                    assert(crossing(adj, taken, taken.len() as int, w, f, t));
                                    assert(is_pending(pending, w, f, t));
                                    let j = choose|j: int|
                                        0 <= j < pending.len() && (#[trigger] pending[j]).0 == w
                                            && pending[j].1 == f && pending[j].2 == t;
                                }
                            }
                        }
                        assert forall|x: int| 0 <= x < n implies (#[trigger] visited[x] <==> in_tree(
                            mst@,
                            mst.len() as int,
                            x,
                        )) by {
                            if x == to {
                                assert(mst@[taken.len() as int].to == x);
                            } else {
                                assert(seen[x] <==> in_tree(taken, taken.len() as int, x));
                                if in_tree(taken, taken.len() as int, x) && x != 0 {
                                    let j = choose|j: int|
                                        0 <= j < taken.len() && (#[trigger] taken[j]).to == x;
                                    assert(mst@[j].to == x);
                                }
                                if in_tree(mst@, mst.len() as int, x) && x != 0 {
                                    let j = choose|j: int|
                                        0 <= j < mst.len() && (#[trigger] mst@[j]).to == x;
                                    assert(j < taken.len());
                                    assert(taken[j].to == x);
                                }
                            }
                        }
                    } else {
                        assert forall|x: int| 0 <= x < n implies (#[trigger] visited[x] <==> in_tree(
                            mst@,
                            mst.len() as int,
                            x,
                        )) by {}
                    }
                }
                proof {
                    assert forall|w: int, f: int, t: int| #[trigger]
                        crossing(adj, mst@, mst.len() as int, w, f, t) && f != to implies is_pending(
                        pq@,
                        w,
                        f,
                        t,
                    ) by {
                        if started {
                            assert(0 <= f < n);
                            assert(visited[f]);
                            assert(seen[f]);
                            assert(in_tree(taken, taken.len() as int, f));
                            assert(!visited[t]);
                            assert(!seen[t]);
                            assert(!in_tree(taken, taken.len() as int, t));
                            assert(crossing(adj, taken, taken.len() as int, w, f, t));
                            assert(is_pending(pending, w, f, t));
                        }
                    }
                }
                let mut k: usize = 0;
                while k < self.adj_list[to].len()
                    invariant
                        n == self.num_nodes,
                        self.wf(),
                        adj == self.adjacency(),
                        to < n,
                        visited.len() == n,
                        visited[to as int],
                        0 <= k <= self.adj_list[to as int].len(),
                        forall|x: int|
                            0 <= x < n ==> (#[trigger] visited[x] <==> in_tree(
                                mst@,
                                mst.len() as int,
                                x,
                            )),
                        forall|i: int|
                            0 <= i < pq.len() ==> (#[trigger] pq[i]).1 < n && pq[i].2 < n
                                && visited[pq[i].1 as int] && has_entry(
                                adj,
                                pq[i].1 as int,
                                pq[i].2 as int,
                                pq[i].0 as int,
                            ),
                        forall|w: int, f: int, t: int| #[trigger]
                            crossing(adj, mst@, mst.len() as int, w, f, t) && f != to
                                ==> is_pending(pq@, w, f, t),
                        forall|i: int|
                            0 <= i < k && !visited[(#[trigger] self.adj_list[to as int][i]).0 as int]
                                ==> is_pending(
                                pq@,
                                self.adj_list[to as int][i].1 as int,
                                to as int,
                                self.adj_list[to as int][i].0 as int,
                            ),
                    decreases self.adj_list[to as int].len() - k,
                {
                    let (next, w) = self.adj_list[to][k];
                    let ghost waiting = pq@;
                    proof {
                        assert(self.adj_list[to as int][k as int].0 < n);
                    }
                    if !visited[next] {
                        pq.push((w, to, next));
                        proof {
                            assert(adj[to as int][k as int] == (next, w));
                            assert(has_entry(adj, to as int, next as int, w as int));
                            assert(pq[waiting.len() as int] == (w, to, next));
                            assert(is_pending(pq@, w as int, to as int, next as int));
                        }
                    }
                    proof {
                        assert forall|a: int, f: int, t: int|
                            is_pending(waiting, a, f, t) implies #[trigger] is_pending(
                            pq@,
                            a,
                            f,
                            t,
                        ) by {
                            let i = choose|i: int|
                                0 <= i < waiting.len() && (#[trigger] waiting[i]).0 == a
                                    && waiting[i].1 == f && waiting[i].2 == t;
                            assert(pq[i] == waiting[i]);
                        }
                        assert forall|i: int| 0 <= i < pq.len() implies (#[trigger] pq[i]).1 < n
                            && pq[i].2 < n && visited[pq[i].1 as int] && has_entry(
                            adj,
                            pq[i].1 as int,
                            pq[i].2 as int,
                            pq[i].0 as int,
                        ) by {
                            if i < waiting.len() {
                                assert(pq[i] == waiting[i]);
                            }
                        }
                    }
                    k += 1;
                }
                proof {
                    started = true;
                    assert forall|w: int, f: int, t: int| #[trigger]
                        crossing(adj, mst@, mst.len() as int, w, f, t) implies is_pending(
                        pq@,
                        w,
                        f,
                        t,
                    ) by {
                        if f == to {
                            let i = choose|i: int|
                                0 <= i < adj[f].len() && (#[trigger] adj[f][i]).0 == t && adj[f][i].1
                                    == w;
                            assert(self.adj_list[to as int][i] == adj[f][i]);
                            assert(!visited[t]);
                        }
                    }
                }
            } else {
                proof {
                    assert(started);
                    assert forall|w: int, f: int, t: int| #[trigger]
                        crossing(adj, mst@, mst.len() as int, w, f, t) implies is_pending(
                        pq@,
                        w,
                        f,
                        t,
                    ) by {
                        assert(is_pending(pending, w, f, t));
                        assert(!visited[t]);
                    }
                    assert forall|i: int| 0 <= i < pq.len() implies (#[trigger] pq[i]).1 < n
                        && pq[i].2 < n && visited[pq[i].1 as int] && has_entry(
                        adj,
                        pq[i].1 as int,
                        pq[i].2 as int,
                        pq[i].0 as int,
                    ) by {
                        let j = choose|j: int| 0 <= j < pending.len() && pq[i] == pending[j];
                        assert(pending[j].1 < n);
                    }
                }
            }
        }
        proof {
            assert(started);
            assert forall|w: int, f: int, t: int| !#[trigger] crossing(
                adj,
                mst@,
                mst.len() as int,
                w,
                f,
                t,
            ) by {
                if crossing(adj, mst@, mst.len() as int, w, f, t) {
                    assert(is_pending(pq@, w, f, t));
                }
            }
        }
        Ok((mst_cost, mst))
    }
}

} // verus!
