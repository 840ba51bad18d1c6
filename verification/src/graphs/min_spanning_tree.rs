//! Kruskal's algorithm: the spanning forest that takes the edges in order of
//! weight and keeps each edge that joins two parts not joined before, which
//! is a spanning forest of least weight.

use crate::data_structures::union_find::{root_count, UnionFind};
pub use crate::graphs::prim::Prim;
use crate::graphs::spanning::{
    by_weight,
    chosen,
    in_range,
    is_forest,
    is_lightest,
    lemma_greedy_is_lightest,
    spans,
};
use vstd::prelude::*;

verus! {

/// A weighted edge between two vertices.
#[derive(Clone, Copy, Debug)]
pub struct Edge {
    pub from: usize,
    pub to: usize,
    pub weight: i32,
}

/// Why an edge was refused.
#[derive(Debug, Clone, Copy, PartialEq, Eq, Structural)]
pub enum SpanningTreeError {
    /// An end of the edge is not a vertex.
    InvalidNode,
}

impl SpanningTreeError {
    /// A human-readable description of the error.
    pub fn message(&self) -> (text: &'static str)
        ensures
            text@ == "Invalid node index"@,
    {
        "Invalid node index"
    }
}

/// The edges of `s` that have the weight `w`, in their order in `s`.
pub open spec fn of_weight(s: Seq<Edge>, w: i32) -> Seq<Edge> {
    s.filter(|e: Edge| e.weight == w)
}

/// `sorted` is `s` sorted by weight, edges of equal weight in the order in
/// which they stand in `s`.
pub open spec fn is_stable_sort(sorted: Seq<Edge>, s: Seq<Edge>) -> bool {
    &&& sorted.len() == s.len()
    &&& forall|i: int, j: int| 0 <= i <= j < sorted.len() ==> sorted[i].weight <= sorted[j].weight
    &&& forall|w: i32| #[trigger] of_weight(sorted, w) == of_weight(s, w)
}

/// Sorts the edges by weight with `slice::sort_by_key`, which the standard
/// library documents as a stable sort: the result is ordered by the key, and
/// elements with equal keys keep their order.
#[verifier::external_body]
fn sort_by_weight(edges: &mut Vec<Edge>)
    ensures
        is_stable_sort(final(edges)@, old(edges)@),
{
    edges.sort_by_key(|x| x.weight);
}

/// `label` gives both ends of every edge of `taken` the same label.
pub open spec fn consistent(taken: Seq<Edge>, label: Seq<int>) -> bool {
    forall|k: int|
        0 <= k < taken.len() ==> label[(#[trigger] taken[k]).from as int]
            == label[taken[k].to as int]
}

/// The vertices `a` and `b` are joined by the edges of `taken`: whatever
/// labels the `n` vertices get, if both ends of every edge of `taken` get
/// the same label, then so do `a` and `b`.
pub open spec fn joined(taken: Seq<Edge>, n: nat, a: int, b: int) -> bool {
    forall|label: Seq<int>|
        label.len() == n && #[trigger] consistent(taken, label) ==> label[a] == label[b]
}

/// The edges that the greedy choice keeps of the first `k` edges of
/// `sorted`: each edge whose ends are not joined by the edges kept before it.
pub open spec fn picks(sorted: Seq<Edge>, n: nat, k: int) -> Seq<Edge>
    decreases k,
{
    if k <= 0 {
        Seq::empty()
    } else {
        let before = picks(sorted, n, k - 1);
        let e = sorted[k - 1];
        if joined(before, n, e.from as int, e.to as int) {
            before
        } else {
            before.push(e)
        }
    }
}

/// The sum of the weights of the edges of `s`.
pub open spec fn total_weight(s: Seq<Edge>) -> int
    decreases s.len(),
{
    if s.len() == 0 {
        0
    } else {
        total_weight(s.drop_last()) + s.last().weight
    }
}

/// The weight of what the greedy choice keeps fits in an `i32` at every
/// step.
pub open spec fn weights_fit(sorted: Seq<Edge>, n: nat) -> bool {
    forall|k: int|
        0 <= k <= sorted.len() ==> i32::MIN <= #[trigger] total_weight(picks(sorted, n, k))
            <= i32::MAX
}

/// Once every two vertices are joined, the greedy choice keeps no further
/// edge.
proof fn lemma_picks_complete(sorted: Seq<Edge>, n: nat, k: int, later: int)
    requires
        0 <= k <= later <= sorted.len(),
        forall|e: int|
            0 <= e < sorted.len() ==> (#[trigger] sorted[e]).from < n && sorted[e].to < n,
        forall|a: int, b: int|
            0 <= a < n && 0 <= b < n ==> #[trigger] joined(picks(sorted, n, k), n, a, b),
    ensures
        picks(sorted, n, later) == picks(sorted, n, k),
    decreases later - k,
{
    if k < later {
        lemma_picks_complete(sorted, n, k, later - 1);
        let e = sorted[later - 1];
        assert(joined(picks(sorted, n, k), n, e.from as int, e.to as int));
    }
}

/// A labelling gives the ends of every edge that the greedy choice keeps
/// of the first `k` edges the same label exactly if it does so for every
/// one of the first `k` edges.
proof fn lemma_picks_consistent(sorted: Seq<Edge>, n: nat, k: int, label: Seq<int>)
    requires
        0 <= k <= sorted.len(),
        label.len() == n,
    ensures
        consistent(picks(sorted, n, k), label) <==> consistent(sorted.take(k), label),
    decreases k,
{
    if k > 0 {
        lemma_picks_consistent(sorted, n, k - 1, label);
        let before = picks(sorted, n, k - 1);
        let kept = picks(sorted, n, k);
        let e = sorted[k - 1];
        let head = sorted.take(k - 1);
        let whole = sorted.take(k);
        if consistent(kept, label) {
            assert forall|i: int| 0 <= i < before.len() implies label[(
            #[trigger] before[i]).from as int] == label[before[i].to as int] by {
                assert(kept[i] == before[i]);
            }
            assert(consistent(head, label));
            if !joined(before, n, e.from as int, e.to as int) {
                assert(kept[before.len() as int] == e);
            }
            assert forall|i: int| 0 <= i < whole.len() implies label[(
            #[trigger] whole[i]).from as int] == label[whole[i].to as int] by {
                if i < k - 1 {
                    assert(head[i] == whole[i]);
                }
            }
        }
        if consistent(whole, label) {
            assert forall|i: int| 0 <= i < head.len() implies label[(
            #[trigger] head[i]).from as int] == label[head[i].to as int] by {
                assert(whole[i] == head[i]);
            }
            assert(whole[k - 1] == e);
            assert(consistent(before, label));
        }
    }
}

/// The edges that the greedy choice keeps of the first `k` edges join
/// exactly the vertices that the first `k` edges join.
pub proof fn lemma_picks_span(sorted: Seq<Edge>, n: nat, k: int, a: int, b: int)
    requires
        0 <= k <= sorted.len(),
    ensures
        joined(picks(sorted, n, k), n, a, b) <==> joined(sorted.take(k), n, a, b),
{
    if joined(picks(sorted, n, k), n, a, b) {
        assert forall|label: Seq<int>|
            label.len() == n && #[trigger] consistent(sorted.take(k), label) implies label[a]
            == label[b] by {
            lemma_picks_consistent(sorted, n, k, label);
        }
    }
    if joined(sorted.take(k), n, a, b) {
        assert forall|label: Seq<int>|
            label.len() == n && #[trigger] consistent(
                picks(sorted, n, k),
                label,
            ) implies label[a] == label[b] by {
            lemma_picks_consistent(sorted, n, k, label);
        }
    }
}

/// No edge that the greedy choice keeps has its ends joined by the edges
/// kept before it: what is kept is a forest.
pub proof fn lemma_picks_forest(sorted: Seq<Edge>, n: nat, k: int, i: int)
    requires
        0 <= k <= sorted.len(),
        0 <= i < picks(sorted, n, k).len(),
    ensures
        !joined(
            picks(sorted, n, k).take(i),
            n,
            picks(sorted, n, k)[i].from as int,
            picks(sorted, n, k)[i].to as int,
        ),
    decreases k,
{
    let before = picks(sorted, n, k - 1);
    let kept = picks(sorted, n, k);
    if i < before.len() {
        lemma_picks_forest(sorted, n, k - 1, i);
        assert(kept.take(i) =~= before.take(i));
    } else {
        assert(kept.take(i) =~= before);
    }
}

/// Sorting changes nothing about which labellings give the ends of every
/// edge the same label.
proof fn lemma_sorted_consistent(sorted: Seq<Edge>, s: Seq<Edge>, label: Seq<int>)
    requires
        is_stable_sort(sorted, s),
    ensures
        consistent(sorted, label) <==> consistent(s, label),
{
    if consistent(s, label) {
        assert forall|e: int| 0 <= e < sorted.len() implies label[(
        #[trigger] sorted[e]).from as int] == label[sorted[e].to as int] by {
            let w = sorted[e].weight;
            let pred = |x: Edge| x.weight == w;
            assert(pred(sorted[e]));
            sorted.lemma_filter_contains(pred, e);
            assert(of_weight(sorted, w).contains(sorted[e]));
            assert(of_weight(s, w).contains(sorted[e]));
            s.lemma_filter_contains_rev(pred, sorted[e]);
            let i = choose|i: int| 0 <= i < s.len() && s[i] == sorted[e];
            assert(label[s[i].from as int] == label[s[i].to as int]);
        }
    }
    if consistent(sorted, label) {
        assert forall|e: int| 0 <= e < s.len() implies label[(#[trigger] s[e]).from as int]
            == label[s[e].to as int] by {
            let w = s[e].weight;
            let pred = |x: Edge| x.weight == w;
            assert(pred(s[e]));
            s.lemma_filter_contains(pred, e);
            assert(of_weight(s, w).contains(s[e]));
            assert(of_weight(sorted, w).contains(s[e]));
            sorted.lemma_filter_contains_rev(pred, s[e]);
            let i = choose|i: int| 0 <= i < sorted.len() && sorted[i] == s[e];
            assert(label[sorted[i].from as int] == label[sorted[i].to as int]);
        }
    }
}

/// The edges of a graph, to be spanned by Kruskal's algorithm.
pub struct Kruskal {
    edges: Vec<Edge>,
    num_nodes: usize,
}

impl Kruskal {
    /// The edges added so far, in the order in which they were added.
    pub closed spec fn edges(&self) -> Seq<Edge> {
        self.edges@
    }

    /// The number of vertices.
    pub closed spec fn nodes(&self) -> nat {
        self.num_nodes as nat
    }

    /// Both ends of every edge are vertices.
    pub closed spec fn wf(&self) -> bool {
        forall|e: int|
            0 <= e < self.edges.len() ==> (#[trigger] self.edges[e]).from < self.num_nodes
                && self.edges[e].to < self.num_nodes
    }

    /// A graph of `num_nodes` vertices and no edges.
    pub fn new(num_nodes: usize) -> (graph: Kruskal)
        ensures
            graph.wf(),
            graph.nodes() == num_nodes,
            graph.edges().len() == 0,
    {
        Kruskal { edges: Vec::new(), num_nodes }
    }

    /// Adds an edge between `from` and `to` of the given weight. Refused,
    /// with nothing changed, if either end is not a vertex.
    pub fn add_edge(&mut self, from: usize, to: usize, weight: i32) -> (added: Result<
        (),
        SpanningTreeError,
    >)
        requires
            old(self).wf(),
        ensures
            final(self).wf(),
            final(self).nodes() == old(self).nodes(),
            from < old(self).nodes() && to < old(self).nodes() ==> added is Ok
                && final(self).edges() == old(self).edges().push(Edge { from, to, weight }),
            !(from < old(self).nodes() && to < old(self).nodes()) ==> added == Err::<
                (),
                SpanningTreeError,
            >(SpanningTreeError::InvalidNode) && final(self).edges() == old(self).edges(),
    {
        if self.num_nodes <= from || self.num_nodes <= to {
            return Err(SpanningTreeError::InvalidNode);
        }
        self.edges.push(Edge { from, to, weight });
        Ok(())
    }

    /// The spanning forest that the greedy choice finds, and its weight:
    /// the edges are taken in order of weight, those of equal weight in the
    /// order in which they were added, and an edge is kept if its ends are
    /// not joined by the edges kept before it. What is kept joins exactly
    /// the vertices that the graph joins, and no forest among the edges
    /// that does so weighs less.
    pub fn min_spanning_tree(&self) -> (found: Result<(i32, Vec<Edge>), SpanningTreeError>)
        requires
            self.wf(),
            forall|sorted: Seq<Edge>| #[trigger]
                is_stable_sort(sorted, self.edges()) ==> weights_fit(sorted, self.nodes()),
        ensures
            found is Ok,
            exists|sorted: Seq<Edge>| #[trigger]
                is_stable_sort(sorted, self.edges()) && found.unwrap().1@ == picks(
                    sorted,
                    self.nodes(),
                    sorted.len() as int,
                ) && is_lightest(sorted, self.nodes(), found.unwrap().1@),
            found.unwrap().0 == total_weight(found.unwrap().1@),
            forall|a: int, b: int| #[trigger]
                joined(found.unwrap().1@, self.nodes(), a, b) <==> joined(
                    self.edges(),
                    self.nodes(),
                    a,
                    b,
                ),
            forall|i: int|
                0 <= i < found.unwrap().1.len() ==> !joined(
                    found.unwrap().1@.take(i),
                    self.nodes(),
                    (#[trigger] found.unwrap().1[i]).from as int,
                    found.unwrap().1[i].to as int,
                ),
    {
        let n: usize = self.num_nodes;
        let mut uf = UnionFind::with_capacity(n);
        let mut edges: Vec<Edge> = self.edges.clone();
        proof {
            assert(edges@ =~= self.edges@);
        }
        sort_by_weight(&mut edges);
        let ghost sorted = edges@;
        let mut mst: Vec<Edge> = Vec::new();
        let mut mst_cost: i32 = 0;
        let mut k: usize = 0;
        proof {
            Self::lemma_sorted_in_range(sorted, self.edges@, n as nat);
            assert(consistent(mst@, uf.roots()));
            assert(is_stable_sort(sorted, self.edges()));
        }
        while k < edges.len()
            invariant_except_break
                mst@ == picks(sorted, n as nat, k as int),
            invariant
                n == self.num_nodes,
                edges@ == sorted,
                is_stable_sort(sorted, self.edges@),
                weights_fit(sorted, n as nat),
                forall|e: int|
                    0 <= e < sorted.len() ==> (#[trigger] sorted[e]).from < n && sorted[e].to < n,
                k <= edges.len(),
                uf.wf(),
                uf.len() == n,
                forall|e: int| 0 <= e < mst.len() ==> (#[trigger] mst[e]).from < n && mst[e].to < n,
                mst_cost == total_weight(mst@),
                root_count(uf.roots()) == n - mst.len(),
                consistent(mst@, uf.roots()),
                forall|label: Seq<int>, x: int|
                    label.len() == n && #[trigger] consistent(mst@, label) && 0 <= x < n
                        ==> #[trigger] label[x] == label[uf.root(x)],
            ensures
                mst@ == picks(sorted, n as nat, sorted.len() as int),
                mst_cost == total_weight(mst@),
            decreases edges.len() - k,
        {
            let edge: Edge = edges[k];
            let ghost roots = uf.roots();
            let ghost taken = mst@;
            let ghost earlier = uf;
            proof {
                uf.lemma_root_is_fixed(edge.from as int);
                uf.lemma_root_is_fixed(edge.to as int);
                uf.lemma_count_of_roots();
            }
            if uf.union_set(edge.from, edge.to) {
                proof {
                    // The old representatives are a labelling that tells
                    // the two ends apart.
                    assert(!joined(taken, n as nat, edge.from as int, edge.to as int)) by {
                        assert(consistent(taken, roots));
                    }
                    assert(taken.push(edge).drop_last() =~= taken);
                    assert(i32::MIN <= total_weight(picks(sorted, n as nat, k + 1)) <= i32::MAX);
                }
                mst.push(edge);
                mst_cost += edge.weight;
                proof {
                    uf.lemma_count_of_roots();
                    assert forall|e: int| 0 <= e < mst@.len() implies uf.roots()[(
                    #[trigger] mst@[e]).from as int] == uf.roots()[mst@[e].to as int] by {
                        if e < taken.len() {
                            assert(mst@[e] == taken[e]);
                            assert(roots[taken[e].from as int] == roots[taken[e].to as int]);
                            assert(uf.root(taken[e].from as int) == uf.root(taken[e].to as int));
                        } else {
                            assert(uf.root(edge.from as int) == uf.root(edge.to as int));
                        }
                    }
                    assert forall|label: Seq<int>, x: int|
                        label.len() == n && #[trigger] consistent(mst@, label) && 0 <= x
                            < n implies #[trigger] label[x] == label[uf.root(x)] by {
                        assert(consistent(taken, label)) by {
                            assert forall|e: int| 0 <= e < taken.len() implies label[(
                            #[trigger] taken[e]).from as int] == label[taken[e].to as int] by {
                                assert(mst@[e] == taken[e]);
                            }
                        }
                        assert(mst@[taken.len() as int] == edge);
                        assert(label[edge.from as int] == label[edge.to as int]);
                        assert(label[x] == label[earlier.root(x)]);
                        assert(label[edge.from as int] == label[earlier.root(edge.from as int)]);
                        assert(label[edge.to as int] == label[earlier.root(edge.to as int)]);
                    }
                }
                if mst.len() == n - 1 {
                    proof {
                        assert forall|a: int, b: int| 0 <= a < n && 0 <= b < n implies #[trigger] joined(
                            picks(sorted, n as nat, k + 1),
                            n as nat,
                            a,
                            b,
                        ) by {
                            uf.lemma_single_set(a, b);
                            assert forall|label: Seq<int>|
                                label.len() == n && #[trigger] consistent(
                                    mst@,
                                    label,
                                ) implies label[a] == label[b] by {
                                assert(label[a] == label[uf.root(a)]);
                                assert(label[b] == label[uf.root(b)]);
                            }
                        }
                        lemma_picks_complete(sorted, n as nat, k + 1, sorted.len() as int);
                    }
                    break ;
                }
            } else {
                proof {
                    assert(joined(taken, n as nat, edge.from as int, edge.to as int)) by {
                        assert forall|label: Seq<int>|
                            label.len() == n && #[trigger] consistent(
                                taken,
                                label,
                            ) implies label[edge.from as int] == label[edge.to as int] by {
                            assert(label[edge.from as int] == label[uf.root(edge.from as int)]);
                            assert(label[edge.to as int] == label[uf.root(edge.to as int)]);
                        }
                    }
                }
            }
            k = k + 1;
        }
        proof {
            assert(in_range(sorted, n as nat));
            assert(by_weight(sorted));
            assert(is_lightest(sorted, n as nat, mst@)) by {
                assert forall|take: Seq<bool>| #[trigger]
                    is_forest(sorted, take, n as nat) && spans(
                        sorted,
                        take,
                        n as nat,
                    ) implies total_weight(mst@) <= total_weight(
                    chosen(sorted, take, sorted.len() as int),
                ) by {
                    lemma_greedy_is_lightest(sorted, take, n as nat);
                }
            }
            assert(is_stable_sort(sorted, self.edges()) && mst@ == picks(
                sorted,
                self.nodes(),
                sorted.len() as int,
            ) && is_lightest(sorted, self.nodes(), mst@));
            assert(sorted.take(sorted.len() as int) =~= sorted);
            assert forall|a: int, b: int| #[trigger]
                joined(mst@, self.nodes(), a, b) <==> joined(self.edges(), self.nodes(), a, b) by {
                lemma_picks_span(sorted, n as nat, sorted.len() as int, a, b);
                if joined(sorted, n as nat, a, b) {
                    assert forall|label: Seq<int>|
                        label.len() == n && #[trigger] consistent(
                            self.edges(),
                            label,
                        ) implies label[a] == label[b] by {
                        lemma_sorted_consistent(sorted, self.edges(), label);
                    }
                }
                if joined(self.edges(), n as nat, a, b) {
                    assert forall|label: Seq<int>|
                        label.len() == n && #[trigger] consistent(sorted, label) implies label[a]
                        == label[b] by {
                        lemma_sorted_consistent(sorted, self.edges(), label);
                    }
                }
            }
            assert forall|i: int| 0 <= i < mst.len() implies !joined(
                mst@.take(i),
                self.nodes(),
                (#[trigger] mst[i]).from as int,
                mst[i].to as int,
            ) by {
                lemma_picks_forest(sorted, n as nat, sorted.len() as int, i);
            }
        }
        Ok((mst_cost, mst))
    }

    /// Sorting keeps the ends of the edges within the graph.
    proof fn lemma_sorted_in_range(sorted: Seq<Edge>, s: Seq<Edge>, n: nat)
        requires
            is_stable_sort(sorted, s),
            forall|e: int| 0 <= e < s.len() ==> (#[trigger] s[e]).from < n && s[e].to < n,
        ensures
            forall|e: int|
                0 <= e < sorted.len() ==> (#[trigger] sorted[e]).from < n && sorted[e].to < n,
    {
        assert forall|e: int| 0 <= e < sorted.len() implies (#[trigger] sorted[e]).from < n
            && sorted[e].to < n by {
            let w = sorted[e].weight;
            let pred = |x: Edge| x.weight == w;
            assert(pred(sorted[e]));
            sorted.lemma_filter_contains(pred, e);
            assert(of_weight(sorted, w).contains(sorted[e]));
            assert(of_weight(s, w).contains(sorted[e]));
            s.lemma_filter_contains_rev(pred, sorted[e]);
            let i = choose|i: int| 0 <= i < s.len() && s[i] == sorted[e];
            assert(s[i].from < n);
        }
    }
}

} // verus!
