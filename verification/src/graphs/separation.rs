//! Walks that keep clear of a vertex, and the vertices that a graph cannot
//! lose without falling apart: its articulation points.

use crate::graphs::reachability::{
    has_edge,
    is_walk,
    lemma_walk_end_in_range,
    lemma_walk_in_range,
    reaches,
    well_formed,
};
use vstd::prelude::*;

verus! {

/// Every edge has an edge in the other direction.
pub open spec fn symmetric(g: Seq<Vec<usize>>) -> bool {
    forall|u: int, v: int| #[trigger] has_edge(g, u, v) ==> has_edge(g, v, u)
}

/// No vertex of `walk` is `x`.
pub open spec fn avoids(walk: Seq<int>, x: int) -> bool {
    forall|k: int| 0 <= k < walk.len() ==> #[trigger] walk[k] != x
}

/// Some walk leads from `a` to `b` without passing `x`.
pub open spec fn joined_without(g: Seq<Vec<usize>>, x: int, a: int, b: int) -> bool {
    exists|walk: Seq<int>| #[trigger]
        is_walk(g, walk) && walk[0] == a && walk[walk.len() - 1] == b && avoids(walk, x)
}

/// Two vertices other than `x` are joined by a walk, but by none that
/// does not pass `x`.
pub open spec fn is_articulation_point(g: Seq<Vec<usize>>, x: int) -> bool {
    exists|a: int, b: int|
        a != x && b != x && #[trigger] reaches(g, a, b) && !joined_without(g, x, a, b)
}

/// A vertex other than `x` is joined to itself without passing `x`.
pub proof fn lemma_joined_to_itself(g: Seq<Vec<usize>>, x: int, a: int)
    requires
        0 <= a < g.len(),
        a != x,
    ensures
        joined_without(g, x, a, a),
{
    let walk = seq![a];
    assert(is_walk(g, walk) && walk[0] == a && walk[walk.len() - 1] == a && avoids(walk, x));
}

/// Two walks that keep clear of `x`, the second starting where the first
/// ends, make one.
pub proof fn lemma_joined_transitive(g: Seq<Vec<usize>>, x: int, a: int, b: int, c: int)
    requires
        joined_without(g, x, a, b),
        joined_without(g, x, b, c),
    ensures
        joined_without(g, x, a, c),
{
    let first = choose|walk: Seq<int>| #[trigger]
        is_walk(g, walk) && walk[0] == a && walk[walk.len() - 1] == b && avoids(walk, x);
    let second = choose|walk: Seq<int>| #[trigger]
        is_walk(g, walk) && walk[0] == b && walk[walk.len() - 1] == c && avoids(walk, x);
    let whole = first + second.drop_first();
    assert forall|k: int| 0 <= k < whole.len() - 1 implies has_edge(
        g,
        #[trigger] whole[k],
        whole[k + 1],
    ) by {
        if k < first.len() - 1 {
            assert(has_edge(g, first[k], first[k + 1]));
        } else {
            let t = k - first.len() + 1;
            assert(has_edge(g, second[t], second[t + 1]));
        }
    }
    assert forall|k: int| 0 <= k < whole.len() implies #[trigger] whole[k] != x by {
        if k < first.len() {
            assert(first[k] != x);
        } else {
            assert(second[k - first.len() + 1] != x);
        }
    }
    if second.len() == 1 {
        assert(whole =~= first);
    }
    assert(is_walk(g, whole) && whole[0] == a && whole[whole.len() - 1] == c && avoids(whole, x));
}

/// An edge between two vertices other than `x` joins them without passing
/// `x`.
pub proof fn lemma_edge_joins(g: Seq<Vec<usize>>, x: int, a: int, b: int)
    requires
        has_edge(g, a, b),
        a != x,
        b != x,
    ensures
        joined_without(g, x, a, b),
{
    let walk = seq![a, b];
    assert(is_walk(g, walk) && walk[0] == a && walk[walk.len() - 1] == b && avoids(walk, x));
}

/// In a graph whose edges go both ways, a walk can be walked back.
pub proof fn lemma_joined_symmetric(g: Seq<Vec<usize>>, x: int, a: int, b: int)
    requires
        well_formed(g),
        symmetric(g),
        joined_without(g, x, a, b),
    ensures
        joined_without(g, x, b, a),
{
    let walk = choose|walk: Seq<int>| #[trigger]
        is_walk(g, walk) && walk[0] == a && walk[walk.len() - 1] == b && avoids(walk, x);
    let back = Seq::new(walk.len(), |k: int| walk[walk.len() - 1 - k]);
    lemma_walk_end_in_range(g, walk);
    assert forall|k: int| 0 <= k < back.len() - 1 implies has_edge(
        g,
        #[trigger] back[k],
        back[k + 1],
    ) by {
        let t = walk.len() - 2 - k;
        assert(has_edge(g, walk[t], walk[t + 1]));
    }
    assert forall|k: int| 0 <= k < back.len() implies #[trigger] back[k] != x by {
        assert(walk[walk.len() - 1 - k] != x);
    }
    assert(is_walk(g, back) && back[0] == b && back[back.len() - 1] == a && avoids(back, x));
}

/// A walk that starts in a set of vertices which no edge leaves but to
/// `x`, and that keeps clear of `x`, stays in the set.
pub proof fn lemma_walk_stays(g: Seq<Vec<usize>>, part: Set<int>, x: int, walk: Seq<int>, k: int)
    requires
        is_walk(g, walk),
        avoids(walk, x),
        part.contains(walk[0]),
        forall|a: int, b: int|
            part.contains(a) && #[trigger] has_edge(g, a, b) ==> part.contains(b) || b == x,
        0 <= k < walk.len(),
    ensures
        part.contains(walk[k]),
    decreases k,
{
    if k > 0 {
        lemma_walk_stays(g, part, x, walk, k - 1);
        lemma_walk_in_range(g, walk, k);
        assert(walk[k] != x);
    }
}

} // verus!
