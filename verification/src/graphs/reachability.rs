//! Walks in a directed graph given by adjacency lists, and what follows
//! from them: which vertices reach which, and which are strongly connected.

use vstd::prelude::*;

verus! {

/// Every entry of every adjacency list names a vertex.
pub open spec fn well_formed(g: Seq<Vec<usize>>) -> bool {
    forall|u: int, i: int|
        0 <= u < g.len() && 0 <= i < g[u].len() ==> (#[trigger] g[u][i]) < g.len()
}

/// The graph has an edge from `u` to `v`.
pub open spec fn has_edge(g: Seq<Vec<usize>>, u: int, v: int) -> bool {
    &&& 0 <= u < g.len()
    &&& exists|i: int| 0 <= i < g[u].len() && #[trigger] g[u][i] == v
}

/// `walk` lists at least one vertex, and each vertex of it has an edge to
/// the next.
pub open spec fn is_walk(g: Seq<Vec<usize>>, walk: Seq<int>) -> bool {
    &&& walk.len() >= 1
    &&& 0 <= walk[0] < g.len()
    &&& forall|k: int| 0 <= k < walk.len() - 1 ==> has_edge(g, #[trigger] walk[k], walk[k + 1])
}

/// Some walk leads from `from` to `to`.
pub open spec fn reaches(g: Seq<Vec<usize>>, from: int, to: int) -> bool {
    exists|walk: Seq<int>| #[trigger]
        is_walk(g, walk) && walk[0] == from && walk[walk.len() - 1] == to
}

/// Each of the two vertices reaches the other.
pub open spec fn strongly_connected(g: Seq<Vec<usize>>, a: int, b: int) -> bool {
    reaches(g, a, b) && reaches(g, b, a)
}

/// Every vertex reaches itself.
pub proof fn lemma_reaches_itself(g: Seq<Vec<usize>>, v: int)
    requires
        0 <= v < g.len(),
    ensures
        reaches(g, v, v),
{
    let walk = seq![v];
    assert(is_walk(g, walk));
}

/// An edge makes its origin reach its target.
pub proof fn lemma_edge_reaches(g: Seq<Vec<usize>>, u: int, v: int)
    requires
        has_edge(g, u, v),
    ensures
        reaches(g, u, v),
{
    let walk = seq![u, v];
    assert(is_walk(g, walk));
}

/// A walk grows by an edge out of its end.
pub proof fn lemma_walk_push(g: Seq<Vec<usize>>, walk: Seq<int>, y: int)
    requires
        is_walk(g, walk),
        has_edge(g, walk[walk.len() - 1], y),
    ensures
        is_walk(g, walk.push(y)),
{
    let longer = walk.push(y);
    assert forall|i: int| 0 <= i < longer.len() - 1 implies has_edge(
        g,
        #[trigger] longer[i],
        longer[i + 1],
    ) by {
        if i < walk.len() - 1 {
            assert(has_edge(g, walk[i], walk[i + 1]));
        }
    }
}

/// A vertex on a walk reaches the end of the walk.
pub proof fn lemma_walk_suffix(g: Seq<Vec<usize>>, walk: Seq<int>, k: int)
    requires
        well_formed(g),
        is_walk(g, walk),
        0 <= k < walk.len(),
    ensures
        reaches(g, walk[k], walk[walk.len() - 1]),
        0 <= walk[k] < g.len(),
{
    let tail = walk.subrange(k, walk.len() as int);
    assert forall|i: int| 0 <= i < tail.len() - 1 implies has_edge(
        g,
        #[trigger] tail[i],
        tail[i + 1],
    ) by {
        assert(has_edge(g, walk[k + i], walk[k + i + 1]));
    }
    if k > 0 {
        lemma_walk_in_range(g, walk, k);
        let u = walk[k - 1];
        let t = choose|t: int| 0 <= t < g[u].len() && #[trigger] g[u][t] == walk[k];
        assert(g[u][t] < g.len());
    }
    assert(is_walk(g, tail));
}

/// The first vertex of a walk reaches every vertex of the walk.
pub proof fn lemma_walk_prefix(g: Seq<Vec<usize>>, walk: Seq<int>, k: int)
    requires
        is_walk(g, walk),
        0 <= k < walk.len(),
    ensures
        is_walk(g, walk.subrange(0, k + 1)),
        reaches(g, walk[0], walk[k]),
{
    let head = walk.subrange(0, k + 1);
    assert forall|i: int| 0 <= i < head.len() - 1 implies has_edge(
        g,
        #[trigger] head[i],
        head[i + 1],
    ) by {
        assert(has_edge(g, walk[i], walk[i + 1]));
    }
    assert(is_walk(g, head));
}

/// Every vertex of a walk behind the first is entered by an edge from the
/// vertex before it.
pub proof fn lemma_walk_in_range(g: Seq<Vec<usize>>, walk: Seq<int>, k: int)
    requires
        is_walk(g, walk),
        0 < k < walk.len(),
    ensures
        has_edge(g, walk[k - 1], walk[k]),
{
    assert(has_edge(g, walk[k - 1], walk[k - 1 + 1]));
}

/// What is left of a walk of at least two vertices after its first vertex
/// is a walk, and the first vertex has an edge to the second.
pub proof fn lemma_walk_from_second(g: Seq<Vec<usize>>, walk: Seq<int>)
    requires
        well_formed(g),
        is_walk(g, walk),
        walk.len() >= 2,
    ensures
        has_edge(g, walk[0], walk[1]),
        is_walk(g, walk.drop_first()),
        walk.drop_first()[0] == walk[1],
        walk.drop_first()[walk.drop_first().len() - 1] == walk[walk.len() - 1],
{
    let rest = walk.drop_first();
    assert(has_edge(g, walk[0], walk[0int + 1]));
    let i = choose|i: int| 0 <= i < g[walk[0]].len() && #[trigger] g[walk[0]][i] == walk[1];
    assert(g[walk[0]][i] < g.len());
    assert forall|k: int| 0 <= k < rest.len() - 1 implies has_edge(
        g,
        #[trigger] rest[k],
        rest[k + 1],
    ) by {
        assert(has_edge(g, walk[k + 1], walk[k + 1 + 1]));
    }
}

/// Reaching is transitive.
pub proof fn lemma_reaches_transitive(g: Seq<Vec<usize>>, a: int, b: int, c: int)
    requires
        reaches(g, a, b),
        reaches(g, b, c),
    ensures
        reaches(g, a, c),
{
    let first = choose|walk: Seq<int>| #[trigger]
        is_walk(g, walk) && walk[0] == a && walk[walk.len() - 1] == b;
    let second = choose|walk: Seq<int>| #[trigger]
        is_walk(g, walk) && walk[0] == b && walk[walk.len() - 1] == c;
    let whole = first + second.drop_first();
    assert forall|k: int| 0 <= k < whole.len() - 1 implies has_edge(
        g,
        #[trigger] whole[k],
        whole[k + 1],
    ) by {
        if k < first.len() - 1 {
            assert(has_edge(g, first[k], first[k + 1]));
        } else {
            let t = k - first.len() + 1;
            assert(has_edge(g, second[t], second[t + 1]));
        }
    }
    assert(is_walk(g, whole));
    assert(whole[0] == a);
    if second.len() == 1 {
        assert(whole =~= first);
    }
}

/// `rev` has the vertices of `g` and exactly the edges of `g`, each turned
/// around.
pub open spec fn is_reverse(g: Seq<Vec<usize>>, rev: Seq<Vec<usize>>) -> bool {
    &&& rev.len() == g.len()
    &&& well_formed(rev)
    &&& forall|a: int, b: int| #[trigger] has_edge(rev, b, a) <==> has_edge(g, a, b)
}

/// The last vertex of a walk lies in the graph.
pub proof fn lemma_walk_end_in_range(g: Seq<Vec<usize>>, walk: Seq<int>)
    requires
        well_formed(g),
        is_walk(g, walk),
    ensures
        0 <= walk[walk.len() - 1] < g.len(),
{
    lemma_walk_suffix(g, walk, walk.len() - 1);
}

/// What one vertex reaches in a graph reaches it in the reversed graph.
pub proof fn lemma_reverse_reaches(g: Seq<Vec<usize>>, rev: Seq<Vec<usize>>, a: int, b: int)
    requires
        well_formed(g),
        is_reverse(g, rev),
        reaches(g, a, b),
    ensures
        reaches(rev, b, a),
{
    let walk = choose|walk: Seq<int>| #[trigger]
        is_walk(g, walk) && walk[0] == a && walk[walk.len() - 1] == b;
    let back = walk.reverse();
    lemma_walk_end_in_range(g, walk);
    assert forall|k: int| 0 <= k < back.len() - 1 implies has_edge(
        rev,
        #[trigger] back[k],
        back[k + 1],
    ) by {
        let t = walk.len() - 2 - k;
        assert(has_edge(g, walk[t], walk[t + 1]));
        assert(back[k] == walk[t + 1]);
        assert(back[k + 1] == walk[t]);
    }
    assert(is_walk(rev, back));
}

/// What reaches a vertex in the reversed graph is reached by it in the
/// graph.
pub proof fn lemma_reverse_reaches_back(g: Seq<Vec<usize>>, rev: Seq<Vec<usize>>, a: int, b: int)
    requires
        well_formed(g),
        is_reverse(g, rev),
        reaches(rev, b, a),
    ensures
        reaches(g, a, b),
{
    let walk = choose|walk: Seq<int>| #[trigger]
        is_walk(rev, walk) && walk[0] == b && walk[walk.len() - 1] == a;
    let back = walk.reverse();
    lemma_walk_end_in_range(rev, walk);
    assert forall|k: int| 0 <= k < back.len() - 1 implies has_edge(
        g,
        #[trigger] back[k],
        back[k + 1],
    ) by {
        let t = walk.len() - 2 - k;
        assert(has_edge(rev, walk[t], walk[t + 1]));
        assert(back[k] == walk[t + 1]);
        assert(back[k + 1] == walk[t]);
    }
    assert(is_walk(g, back));
}

/// Being strongly connected is symmetric and transitive, and every vertex
/// is strongly connected to itself.
pub proof fn lemma_strongly_connected_transitive(g: Seq<Vec<usize>>, a: int, b: int, c: int)
    requires
        strongly_connected(g, a, b),
        strongly_connected(g, b, c),
    ensures
        strongly_connected(g, a, c),
        strongly_connected(g, b, a),
{
    lemma_reaches_transitive(g, a, b, c);
    lemma_reaches_transitive(g, c, b, a);
}

} // verus!
