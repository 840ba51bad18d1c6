//! Two-colouring of the part of a graph that can be reached from vertex
//! zero, and matchings in graphs with two sides.

use crate::summation::{lemma_sum_monotone, lemma_sum_point_update, lemma_sum_zero, sum_to};
pub use crate::graphs::kuhn::kuhn_algorithm;
use std::collections::VecDeque;
use vstd::prelude::*;

verus! {

/// Why a colouring or a matching was given up.
#[derive(Debug, Clone, Copy, PartialEq, Eq, Structural)]
pub enum MatchingError {
    /// The queue ran empty while a vertex was expected in it. No input
    /// makes a colouring fail so.
    EmptyQueue,
    /// The two sides do not hold as many vertices as the graph has.
    SizeMismatch,
}

/// There is a vertex zero, and every entry of every adjacency list names a
/// vertex.
pub open spec fn well_formed(al: Seq<&Vec<usize>>) -> bool {
    &&& al.len() > 0
    &&& forall|u: int, i: int|
        0 <= u < al.len() && 0 <= i < al[u].len() ==> (#[trigger] al[u][i]) < al.len()
}

/// The graph has an edge from `u` to `v`.
pub open spec fn has_edge(al: Seq<&Vec<usize>>, u: int, v: int) -> bool {
    exists|i: int| 0 <= i < al[u].len() && #[trigger] al[u][i] == v
}

/// `walk` starts at vertex zero and follows edges of the graph.
pub open spec fn is_walk_from_zero(al: Seq<&Vec<usize>>, walk: Seq<int>) -> bool {
    &&& walk.len() >= 1
    &&& walk[0] == 0
    &&& forall|k: int| 0 <= k < walk.len() ==> 0 <= #[trigger] walk[k] < al.len()
    &&& forall|k: int| 0 <= k < walk.len() - 1 ==> has_edge(al, #[trigger] walk[k], walk[k + 1])
}

/// Vertex `v` can be reached from vertex zero.
pub open spec fn reachable(al: Seq<&Vec<usize>>, v: int) -> bool {
    exists|walk: Seq<int>| #[trigger] is_walk_from_zero(al, walk) && walk[walk.len() - 1] == v
}

/// `side` gives the two ends of every edge that leaves a vertex reachable
/// from vertex zero different sides.
pub open spec fn separates(al: Seq<&Vec<usize>>, side: Seq<bool>) -> bool {
    &&& side.len() == al.len()
    &&& forall|u: int, i: int|
        0 <= u < al.len() && 0 <= i < al[u].len() && reachable(al, u) ==> side[u] != side[(
        #[trigger] al[u][i]) as int]
}

/// The part of the graph that can be reached from vertex zero can be
/// coloured with two colours so that no edge joins two vertices of one
/// colour.
pub open spec fn two_colourable(al: Seq<&Vec<usize>>) -> bool {
    exists|side: Seq<bool>| #[trigger] separates(al, side)
}

/// One if vertex `i` has no colour, else zero.
pub open spec fn blank_term(color: Seq<usize>, i: int) -> int {
    if color[i] == usize::MAX {
        1
    } else {
        0
    }
}

/// How many vertices have no colour.
pub open spec fn blank_count(color: Seq<usize>) -> int {
    sum_to(|i: int| blank_term(color, i), color.len() as int)
}

/// Vertex `v` waits in the queue.
pub open spec fn pending(queue: Seq<usize>, v: int) -> bool {
    exists|i: int| 0 <= i < queue.len() && #[trigger] queue[i] == v
}

/// The first `k` edges out of `u` lead to vertices of the other colour.
pub open spec fn checked(al: Seq<&Vec<usize>>, color: Seq<usize>, u: int, k: int) -> bool {
    forall|i: int|
        0 <= i < k ==> color[(#[trigger] al[u][i]) as int] != usize::MAX && color[al[u][i] as int]
            != color[u]
}

/// Whatever separates the graph agrees with `color` up to the choice of the
/// side of vertex zero.
pub open spec fn forced(al: Seq<&Vec<usize>>, color: Seq<usize>) -> bool {
    forall|side: Seq<bool>, v: int| #[trigger]
        separates(al, side) && 0 <= v < al.len() && color[v] != usize::MAX ==> (side[v]
            == side[0]) == (#[trigger] color[v] == 0)
}

/// Colouring one more vertex lowers the count of the blank ones by one.
proof fn lemma_blank_count_after_colouring(color: Seq<usize>, v: int, c: usize)
    requires
        0 <= v < color.len(),
        color[v] == usize::MAX,
        c != usize::MAX,
    ensures
        blank_count(color.update(v, c)) == blank_count(color) - 1,
        blank_count(color.update(v, c)) >= 0,
{
    let after = color.update(v, c);
    lemma_sum_point_update(
        |i: int| blank_term(color, i),
        |i: int| blank_term(after, i),
        color.len() as int,
        v,
    );
    lemma_sum_zero(|i: int| 0int, color.len() as int);
    lemma_sum_monotone(|i: int| 0int, |i: int| blank_term(after, i), color.len() as int);
}

/// A vertex at the end of an edge out of a reachable vertex is reachable.
proof fn lemma_reachable_step(al: Seq<&Vec<usize>>, u: int, i: int)
    requires
        well_formed(al),
        reachable(al, u),
        0 <= u < al.len(),
        0 <= i < al[u].len(),
    ensures
        reachable(al, al[u][i] as int),
{
    let walk = choose|walk: Seq<int>| #[trigger]
        is_walk_from_zero(al, walk) && walk[walk.len() - 1] == u;
    let longer = walk.push(al[u][i] as int);
    assert forall|k: int| 0 <= k < longer.len() - 1 implies has_edge(
        al,
        #[trigger] longer[k],
        longer[k + 1],
    ) by {
        if k < walk.len() - 1 {
            assert(has_edge(al, walk[k], walk[k + 1]));
        } else {
            assert(al[longer[k]][i] == longer[k + 1]);
        }
    }
    assert(is_walk_from_zero(al, longer));
}

/// If every coloured vertex has been checked and vertex zero is coloured,
/// then every reachable vertex is coloured.
proof fn lemma_reachable_is_coloured(al: Seq<&Vec<usize>>, color: Seq<usize>, walk: Seq<int>)
    requires
        well_formed(al),
        color.len() == al.len(),
        color[0] != usize::MAX,
        forall|u: int|
            0 <= u < al.len() && color[u] != usize::MAX ==> #[trigger] checked(
                al,
                color,
                u,
                al[u].len() as int,
            ),
        is_walk_from_zero(al, walk),
    ensures
        color[walk[walk.len() - 1]] != usize::MAX,
    decreases walk.len(),
{
    if walk.len() > 1 {
        let shorter = walk.drop_last();
        assert forall|k: int| 0 <= k < shorter.len() - 1 implies has_edge(
            al,
            #[trigger] shorter[k],
            shorter[k + 1],
        ) by {
            assert(has_edge(al, walk[k], walk[k + 1]));
        }
        assert(is_walk_from_zero(al, shorter));
        lemma_reachable_is_coloured(al, color, shorter);
        let u = walk[walk.len() - 2];
        assert(shorter[shorter.len() - 1] == u);
        assert(has_edge(al, walk[walk.len() - 2], walk[walk.len() - 2 + 1]));
        let i = choose|i: int| 0 <= i < al[u].len() && #[trigger] al[u][i] == walk[walk.len() - 1];
        assert(checked(al, color, u, al[u].len() as int));
        assert(color[al[u][i] as int] != usize::MAX);
    }
}

/// Tells whether the part of the graph that can be reached from vertex zero
/// can be coloured with two colours so that no edge joins two vertices of
/// one colour.
pub fn is_bipartite(al: &Vec<&Vec<usize>>) -> (answer: Result<bool, MatchingError>)
    requires
        well_formed(al@),
    ensures
        answer matches Ok(fine) && fine == two_colourable(al@),
{
    let n: usize = al.len();
    let ghost g = al@;
    let mut is_correct: bool = true;
    let mut deque: VecDeque<usize> = VecDeque::new();
    let mut color: Vec<usize> = vec![usize::MAX; n];
    let ghost blank = color@;
    color[0] = 0;
    deque.push_back(0);
    let ghost mut done: Set<int> = Set::empty();
    proof {
        lemma_blank_count_after_colouring(blank, 0, 0);
        assert(color@ == blank.update(0, 0usize));
        assert(deque@[0] == 0);
        assert(pending(deque@, 0));
        let start = seq![0int];
        assert(is_walk_from_zero(g, start));
        assert(reachable(g, 0));
    }
    while deque.len() > 0 && is_correct
        invariant
            g == al@,
            n == al.len(),
            well_formed(g),
            color.len() == n,
            color[0] == 0,
            forall|v: int| 0 <= v < n ==> color[v] == usize::MAX || #[trigger] color[v] <= 1,
            forall|v: int| 0 <= v < n && color[v] != usize::MAX ==> #[trigger] reachable(g, v),
            forced(g, color@),
            forall|i: int|
                0 <= i < deque@.len() ==> (#[trigger] deque@[i]) < n && color[deque@[i] as int]
                    != usize::MAX,
            is_correct ==> forall|v: int|
                0 <= v < n && color[v] != usize::MAX ==> done.contains(v) || #[trigger] pending(
                    deque@,
                    v,
                ),
            forall|v: int| #[trigger]
                done.contains(v) ==> 0 <= v < n && color[v] != usize::MAX && checked(
                    g,
                    color@,
                    v,
                    g[v].len() as int,
                ),
            !is_correct ==> !two_colourable(g),
            blank_count(color@) >= 0,
        decreases blank_count(color@) + deque@.len(),
    {
        let ghost before_pop = deque@;
        let u: usize = match deque.pop_front() {
            Some(u) => u,
            None => {
                return Err(MatchingError::EmptyQueue);
            },
        };
        proof {
            assert(before_pop[0] == u);
            assert forall|w: int|
                0 <= w < n && color[w] != usize::MAX implies done.contains(w) || w == u
                || #[trigger] pending(deque@, w) by {
                if !done.contains(w) && w != u {
                    assert(pending(before_pop, w));
                    let i = choose|i: int|
                        0 <= i < before_pop.len() && #[trigger] before_pop[i] == w;
                    assert(deque@[i - 1] == w);
                }
            }
            assert forall|i: int| 0 <= i < deque@.len() implies (#[trigger] deque@[i]) < n
                && color[deque@[i] as int] != usize::MAX by {
                assert(deque@[i] == before_pop[i + 1]);
            }
        }
        let ghost budget = blank_count(color@) + deque@.len();
        let degree: usize = al[u].len();
        let mut k: usize = 0;
        while k < degree && is_correct
            invariant
                g == al@,
                n == al.len(),
                well_formed(g),
                u < n,
                degree == g[u as int].len(),
                k <= degree,
                color.len() == n,
                color[0] == 0,
                color[u as int] != usize::MAX,
                forall|v: int| 0 <= v < n ==> color[v] == usize::MAX || #[trigger] color[v] <= 1,
                forall|v: int| 0 <= v < n && color[v] != usize::MAX ==> #[trigger] reachable(g, v),
                forced(g, color@),
                forall|i: int|
                    0 <= i < deque@.len() ==> (#[trigger] deque@[i]) < n
                        && color[deque@[i] as int] != usize::MAX,
                forall|v: int|
                    0 <= v < n && color[v] != usize::MAX ==> done.contains(v) || v == u
                        || #[trigger] pending(deque@, v),
                forall|v: int| #[trigger]
                    done.contains(v) ==> 0 <= v < n && color[v] != usize::MAX && checked(
                        g,
                        color@,
                        v,
                        g[v].len() as int,
                    ),
                is_correct ==> checked(g, color@, u as int, k as int),
                !is_correct ==> !two_colourable(g),
                blank_count(color@) >= 0,
                blank_count(color@) + deque@.len() == budget,
            decreases degree - k + (if is_correct {
                1int
            } else {
                0int
            }),
        {
            let v: usize = al[u][k];
            let ghost marks = color@;
            let ghost queue_before = deque@;
            proof {
                lemma_reachable_step(g, u as int, k as int);
            }
            if color[v] == usize::MAX {
                color[v] = 1 - color[u];
                deque.push_front(v);
                proof {
                    lemma_blank_count_after_colouring(marks, v as int, (1 - marks[u as int]) as usize);
                    assert(color@ == marks.update(v as int, (1 - marks[u as int]) as usize));
                    assert(deque@ =~= seq![v] + queue_before);
                    assert(deque@[0] == v);
                    assert(pending(deque@, v as int));
                    assert forall|w: int|
                        0 <= w < n && color[w] != usize::MAX implies done.contains(w) || w == u
                        || #[trigger] pending(deque@, w) by {
                        if w != v && !done.contains(w) && w != u {
                            assert(pending(queue_before, w));
                            let i = choose|i: int|
                                0 <= i < queue_before.len() && #[trigger] queue_before[i] == w;
                            assert(deque@[i + 1] == w);
                        }
                    }
                    assert forall|i: int| 0 <= i < deque@.len() implies (#[trigger] deque@[i]) < n
                        && color[deque@[i] as int] != usize::MAX by {
                        if i > 0 {
                            assert(deque@[i] == queue_before[i - 1]);
                        }
                    }
                    assert forall|w: int| #[trigger] done.contains(w) implies 0 <= w < n
                        && color[w] != usize::MAX && checked(g, color@, w, g[w].len() as int) by {
                        assert(checked(g, marks, w, g[w].len() as int));
                    }
                    assert(checked(g, color@, u as int, k as int + 1)) by {
                        assert(checked(g, marks, u as int, k as int));
                    }
                    assert forall|side: Seq<bool>, w: int| #[trigger]
                        separates(g, side) && 0 <= w < n && color[w] != usize::MAX implies (side[w]
                        == side[0]) == (#[trigger] color[w] == 0) by {
                        if w == v {
                            assert(side[u as int] != side[g[u as int][k as int] as int]);
                            assert((side[u as int] == side[0]) == (marks[u as int] == 0));
                        } else {
                            assert((side[w] == side[0]) == (marks[w] == 0));
                        }
                    }
                }
            } else if color[v] == color[u] {
                is_correct = false;
                proof {
                    if two_colourable(g) {
                        let side = choose|side: Seq<bool>| #[trigger] separates(g, side);
                        assert(side[u as int] != side[g[u as int][k as int] as int]);
                        assert((side[u as int] == side[0]) == (color[u as int] == 0));
                        assert((side[v as int] == side[0]) == (color[v as int] == 0));
                    }
                }
            }
            k = k + 1;
        }
        proof {
            if is_correct {
                done = done.insert(u as int);
                assert forall|w: int|
                    0 <= w < n && color[w] != usize::MAX implies done.contains(w)
                    || #[trigger] pending(deque@, w) by {}
            }
        }
    }
    proof {
        if is_correct {
            let side = Seq::new(n as nat, |v: int| color[v] == 0);
            assert forall|u: int, i: int|
                0 <= u < g.len() && 0 <= i < g[u].len() && reachable(g, u) implies side[u] != side[(
            #[trigger] g[u][i]) as int] by {
                let walk = choose|walk: Seq<int>| #[trigger]
                    is_walk_from_zero(g, walk) && walk[walk.len() - 1] == u;
                assert forall|w: int|
                    0 <= w < g.len() && color[w] != usize::MAX implies #[trigger] checked(
                    g,
                    color@,
                    w,
                    g[w].len() as int,
                ) by {
                    if !done.contains(w) {
                        assert(pending(deque@, w));
                    }
                }
                lemma_reachable_is_coloured(g, color@, walk);
                assert(checked(g, color@, u, g[u].len() as int));
            }
            assert(separates(g, side));
        }
    }
    Ok(is_correct)
}

} // verus!
