//! Topological order by depth-first search: every vertex is listed before
//! the vertices that its edges lead to, except where an edge closes a cycle.

use crate::summation::{
    lemma_sum_congruence,
    lemma_sum_monotone,
    lemma_sum_point_update,
    lemma_sum_zero,
    sum_to,
};
use vstd::prelude::*;

verus! {

/// Why a sort was given up. No input makes the sort fail; the type is kept
/// for callers that want to handle a `Result`.
#[derive(Debug, Clone, Copy, PartialEq, Eq, Structural)]
pub enum SortError {
    /// The stack of finished vertices ran empty while it was being drained.
    EmptyStack,
}

/// Every entry of every adjacency list names a vertex, and every vertex has
/// a number that fits in an `i32`.
pub open spec fn well_formed(graph: Seq<Vec<i32>>) -> bool {
    &&& graph.len() <= i32::MAX
    &&& forall|u: int, i: int|
        0 <= u < graph.len() && 0 <= i < graph[u].len() ==> 0 <= #[trigger] graph[u][i]
            < graph.len()
}

/// The graph has an edge from `u` to `v`.
pub open spec fn has_edge(graph: Seq<Vec<i32>>, u: int, v: int) -> bool {
    &&& 0 <= u < graph.len()
    &&& exists|i: int| 0 <= i < graph[u].len() && #[trigger] graph[u][i] == v
}

/// `walk` lists at least one vertex, and each vertex of it has an edge to
/// the next.
pub open spec fn is_walk(graph: Seq<Vec<i32>>, walk: Seq<int>) -> bool {
    &&& walk.len() >= 1
    &&& forall|k: int| 0 <= k < walk.len() - 1 ==> has_edge(graph, #[trigger] walk[k], walk[k + 1])
}

/// Some walk leads from `from` to `to`.
pub open spec fn reaches(graph: Seq<Vec<i32>>, from: int, to: int) -> bool {
    exists|walk: Seq<int>| #[trigger]
        is_walk(graph, walk) && walk[0] == from && walk[walk.len() - 1] == to
}

/// Vertex `v` stands in `list`.
pub open spec fn listed(list: Seq<i32>, v: int) -> bool {
    exists|i: int| 0 <= i < list.len() && #[trigger] list[i] == v
}

/// One if vertex `i` has not been visited, else zero.
pub open spec fn unvisited_term(visited: Seq<bool>, i: int) -> int {
    if visited[i] {
        0
    } else {
        1
    }
}

/// How many vertices have not been visited.
pub open spec fn unvisited(visited: Seq<bool>) -> int {
    sum_to(|i: int| unvisited_term(visited, i), visited.len() as int)
}

/// The vertices in `stack` are finished: no vertex stands in it twice, and
/// every edge out of one of them leads to a vertex that was finished before
/// it, or else to one that reaches it back.
pub open spec fn finished_in_order(graph: Seq<Vec<i32>>, stack: Seq<i32>) -> bool {
    &&& forall|i: int, j: int| 0 <= i < j < stack.len() ==> stack[i] != stack[j]
    &&& forall|i: int| 0 <= i < stack.len() ==> 0 <= #[trigger] stack[i] < graph.len()
    &&& forall|i: int, k: int|
        0 <= i < stack.len() && 0 <= k < graph[stack[i] as int].len() ==> before_or_back(
            graph,
            stack,
            i,
            #[trigger] graph[stack[i] as int][k] as int,
        )
}

/// Vertex `y` stands in `stack` below position `i`, or reaches the vertex at
/// position `i`.
pub open spec fn before_or_back(graph: Seq<Vec<i32>>, stack: Seq<i32>, i: int, y: int) -> bool {
    (exists|j: int| 0 <= j < i && #[trigger] stack[j] == y) || reaches(graph, y, stack[i] as int)
}

/// The state in which a search may descend into `v`: `v` is not visited, the
/// stack holds finished vertices only, and the vertices that are visited but
/// not finished lie on `path`, a walk that ends in `v`.
pub open spec fn ready(
    graph: Seq<Vec<i32>>,
    visited: Seq<bool>,
    stack: Seq<i32>,
    v: int,
    path: Seq<int>,
) -> bool {
    &&& well_formed(graph)
    &&& visited.len() == graph.len()
    &&& 0 <= v < graph.len()
    &&& !visited[v]
    &&& is_walk(graph, path)
    &&& path[path.len() - 1] == v
    &&& finished_in_order(graph, stack)
    &&& forall|i: int| 0 <= i < stack.len() ==> visited[#[trigger] stack[i] as int]
    &&& forall|x: int|
        0 <= x < graph.len() && visited[x] && !listed(stack, x) ==> exists|k: int|
            0 <= k < path.len() - 1 && #[trigger] path[k] == x
}

/// A vertex on a walk reaches the end of the walk.
proof fn lemma_walk_suffix(graph: Seq<Vec<i32>>, walk: Seq<int>, k: int)
    requires
        is_walk(graph, walk),
        0 <= k < walk.len(),
    ensures
        reaches(graph, walk[k], walk[walk.len() - 1]),
{
    let tail = walk.subrange(k, walk.len() as int);
    assert forall|i: int| 0 <= i < tail.len() - 1 implies has_edge(
        graph,
        #[trigger] tail[i],
        tail[i + 1],
    ) by {
        assert(has_edge(graph, walk[k + i], walk[k + i + 1]));
    }
    assert(is_walk(graph, tail));
}

/// A walk grows by an edge out of its end.
proof fn lemma_walk_push(graph: Seq<Vec<i32>>, walk: Seq<int>, y: int)
    requires
        is_walk(graph, walk),
        has_edge(graph, walk[walk.len() - 1], y),
    ensures
        is_walk(graph, walk.push(y)),
{
    let longer = walk.push(y);
    assert forall|i: int| 0 <= i < longer.len() - 1 implies has_edge(
        graph,
        #[trigger] longer[i],
        longer[i + 1],
    ) by {
        if i < walk.len() - 1 {
            assert(has_edge(graph, walk[i], walk[i + 1]));
        }
    }
}

/// Visiting one more vertex lowers the count of the unvisited by one.
proof fn lemma_unvisited_after_visit(visited: Seq<bool>, v: int)
    requires
        0 <= v < visited.len(),
        !visited[v],
    ensures
        unvisited(visited.update(v, true)) == unvisited(visited) - 1,
        unvisited(visited.update(v, true)) >= 0,
{
    let after = visited.update(v, true);
    lemma_sum_point_update(
        |i: int| unvisited_term(visited, i),
        |i: int| unvisited_term(after, i),
        visited.len() as int,
        v,
    );
    lemma_sum_zero(|i: int| 0int, visited.len() as int);
    lemma_sum_monotone(|i: int| 0int, |i: int| unvisited_term(after, i), visited.len() as int);
}

/// Adding an element on top keeps what stood in a list listed.
proof fn lemma_listed_push(list: Seq<i32>, top: i32, v: int)
    ensures
        listed(list, v) ==> listed(list.push(top), v),
        listed(list.push(top), top as int),
        listed(list.push(top), v) ==> listed(list, v) || v == top,
{
    let longer = list.push(top);
    if listed(list, v) {
        let i = choose|i: int| 0 <= i < list.len() && #[trigger] list[i] == v;
        assert(longer[i] == v);
    }
    assert(longer[list.len() as int] == top);
}

/// Visits `v` and everything that can be reached from it through vertices
/// not visited before, and pushes each of these vertices on `stack` once
/// everything reachable from it has been pushed.
pub fn dfs(graph: &Vec<Vec<i32>>, v: usize, visited: &mut Vec<bool>, stack: &mut Vec<i32>)
    requires
        exists|path: Seq<int>| #[trigger] ready(graph@, old(visited)@, old(stack)@, v as int, path),
    ensures
        final(visited).len() == old(visited).len(),
        final(visited)[v as int],
        forall|x: int| 0 <= x < old(visited).len() && old(visited)[x] ==> final(visited)[x],
        forall|x: int|
            0 <= x < old(visited).len() && final(visited)[x] && !old(visited)[x] ==> listed(
                final(stack)@,
                x,
            ),
        forall|x: int| listed(final(stack)@, x) ==> listed(old(stack)@, x) || (0 <= x < old(
            visited,
        ).len() && !old(visited)[x]),
        old(stack).len() <= final(stack).len(),
        forall|i: int| 0 <= i < old(stack).len() ==> final(stack)[i] == old(stack)[i],
        final(stack).len() - old(stack).len() == unvisited(old(visited)@) - unvisited(
            final(visited)@,
        ),
        unvisited(final(visited)@) >= 0,
        finished_in_order(graph@, final(stack)@),
        forall|i: int| 0 <= i < final(stack).len() ==> final(visited)[#[trigger] final(stack)[i] as int],
    decreases unvisited(old(visited)@),
{
    let ghost path = choose|path: Seq<int>| #[trigger]
        ready(graph@, old(visited)@, old(stack)@, v as int, path);
    let ghost g = graph@;
    let ghost n = graph.len() as int;
    proof {
        lemma_unvisited_after_visit(visited@, v as int);
    }
    visited[v] = true;
    let degree: usize = graph[v].len();
    let mut k: usize = 0;
    while k < degree
        invariant
            g == graph@,
            n == graph.len(),
            well_formed(g),
            0 <= v < n,
            degree == graph[v as int].len(),
            k <= degree,
            visited.len() == n,
            old(visited).len() == n,
            visited[v as int],
            !old(visited)[v as int],
            !listed(stack@, v as int),
            !listed(old(stack)@, v as int),
            is_walk(g, path),
            path[path.len() - 1] == v,
            forall|x: int| 0 <= x < n && old(visited)[x] ==> visited[x],
            forall|x: int|
                0 <= x < n && visited[x] && !old(visited)[x] && x != v ==> listed(stack@, x),
            forall|x: int|
                listed(stack@, x) ==> listed(old(stack)@, x) || (0 <= x < n && !old(visited)[x]),
            forall|x: int|
                0 <= x < n && old(visited)[x] && !listed(old(stack)@, x) ==> exists|j: int|
                    0 <= j < path.len() - 1 && #[trigger] path[j] == x,
            old(stack).len() <= stack.len(),
            forall|i: int| 0 <= i < old(stack).len() ==> stack[i] == old(stack)[i],
            stack.len() - old(stack).len() == unvisited(old(visited)@) - 1 - unvisited(visited@),
            0 <= unvisited(visited@) < unvisited(old(visited)@),
            finished_in_order(g, stack@),
            forall|i: int| 0 <= i < stack.len() ==> visited[#[trigger] stack[i] as int],
            forall|j: int|
                0 <= j < k ==> listed(stack@, #[trigger] graph[v as int][j] as int) || reaches(
                    g,
                    graph[v as int][j] as int,
                    v as int,
                ),
        decreases degree - k,
    {
        let el: i32 = graph[v][k];
        let i: usize = el as usize;
        let ghost stack_before = stack@;
        let ghost visited_before = visited@;
        if !visited[i] {
            proof {
                let longer = path.push(i as int);
                assert(has_edge(g, v as int, i as int));
                lemma_walk_push(g, path, i as int);
                assert forall|x: int|
                    0 <= x < n && visited[x] && !listed(stack@, x) implies exists|j: int|
                    0 <= j < longer.len() - 1 && #[trigger] longer[j] == x by {
                    if x == v {
                        assert(longer[path.len() - 1] == v);
                    } else {
                        assert(old(visited)[x]);
                        let j = choose|j: int| 0 <= j < path.len() - 1 && #[trigger] path[j] == x;
                        assert(longer[j] == x);
                    }
                }
                assert(ready(g, visited@, stack@, i as int, longer));
            }
            dfs(graph, i, visited, stack);
            proof {
                assert forall|j: int| 0 <= j < k implies listed(
                    stack@,
                    #[trigger] graph[v as int][j] as int,
                ) || reaches(g, graph[v as int][j] as int, v as int) by {
                    let y = graph[v as int][j] as int;
                    if listed(stack_before, y) {
                        let t = choose|t: int| 0 <= t < stack_before.len() && #[trigger] stack_before[t] == y;
                        assert(stack@[t] == y);
                    }
                }
                assert(listed(stack@, i as int));
                assert forall|x: int| listed(stack@, x) implies listed(old(stack)@, x) || (0 <= x
                    < n && !old(visited)[x]) by {
                    if listed(stack_before, x) {
                    }
                }
                assert(!listed(stack@, v as int));
            }
        } else {
            proof {
                if !listed(stack@, i as int) {
                    if i != v {
                        let j = choose|j: int| 0 <= j < path.len() - 1 && #[trigger] path[j] == i;
                        lemma_walk_suffix(g, path, j);
                    } else {
                        lemma_walk_suffix(g, path, path.len() - 1);
                    }
                }
            }
        }
        k = k + 1;
    }
    let ghost below = stack@;
    stack.push(v as i32);
    proof {
        let top = below.len() as int;
        assert(stack@[top] == v);
        assert forall|x: int| true implies (listed(below, x) ==> listed(stack@, x)) && (listed(
            stack@,
            x,
        ) ==> listed(below, x) || x == v) by {
            lemma_listed_push(below, v as i32, x);
        }
        lemma_listed_push(below, v as i32, v as int);
        assert forall|i: int, j: int| 0 <= i < j < stack.len() implies stack[i] != stack[j] by {
            if j == top {
                if stack[i] == v {
                    assert(below[i] == v);
                    assert(listed(below, v as int));
                }
            }
        }
        assert forall|i: int, t: int|
            0 <= i < stack.len() && 0 <= t < graph[stack[i] as int].len() implies before_or_back(
            g,
            stack@,
            i,
            #[trigger] graph[stack[i] as int][t] as int,
        ) by {
            let y = graph[stack[i] as int][t] as int;
            if i < top {
                assert(before_or_back(g, below, i, y));
                if exists|j: int| 0 <= j < i && #[trigger] below[j] == y {
                    let j = choose|j: int| 0 <= j < i && #[trigger] below[j] == y;
                    assert(stack@[j] == y);
                }
            } else {
                if listed(below, y) {
                    let j = choose|j: int| 0 <= j < below.len() && #[trigger] below[j] == y;
                    assert(stack@[j] == y);
                }
            }
        }
    }
}

/// A topological order of the graph given by its adjacency lists: all
/// vertices, each once, and every vertex before the vertices that its edges
/// lead to, except for edges that lead to a vertex from which their origin
/// can be reached again.
pub fn topological_sort(graph: Vec<Vec<i32>>) -> (sorted: Result<Vec<i32>, SortError>)
    requires
        well_formed(graph@),
    ensures
        sorted is Ok,
        sorted.unwrap().len() == graph.len(),
        forall|i: int, j: int|
            0 <= i < j < graph.len() ==> sorted.unwrap()[i] != sorted.unwrap()[j],
        forall|v: int| 0 <= v < graph.len() ==> listed(sorted.unwrap()@, v),
        forall|i: int, j: int|
            0 <= j <= i < graph.len() && has_edge(
                graph@,
                #[trigger] sorted.unwrap()[i] as int,
                #[trigger] sorted.unwrap()[j] as int,
            ) ==> reaches(graph@, sorted.unwrap()[j] as int, sorted.unwrap()[i] as int),
{
    let v: usize = graph.len();
    let mut visited: Vec<bool> = vec![false; v];
    let mut stack: Vec<i32> = Vec::new();
    let ghost g = graph@;
    proof {
        lemma_sum_congruence(|i: int| unvisited_term(visited@, i), |i: int| 1int, v as int);
        lemma_sum_of_ones(v as int);
    }
    let mut i: usize = 0;
    while i < v
        invariant
            g == graph@,
            v == graph.len(),
            well_formed(g),
            i <= v,
            visited.len() == v,
            forall|x: int| 0 <= x < i ==> visited[x],
            forall|x: int| 0 <= x < v && visited[x] ==> listed(stack@, x),
            forall|t: int| 0 <= t < stack.len() ==> visited[#[trigger] stack[t] as int],
            finished_in_order(g, stack@),
            stack.len() + unvisited(visited@) == v,
            unvisited(visited@) >= 0,
        decreases v - i,
    {
        if !visited[i] {
            proof {
                let path = seq![i as int];
                assert(is_walk(g, path));
                assert(ready(g, visited@, stack@, i as int, path));
            }
            dfs(&graph, i, &mut visited, &mut stack);
        }
        i = i + 1;
    }
    let ghost finished = stack@;
    let mut res: Vec<i32> = Vec::new();
    proof {
        lemma_sum_zero(|i: int| unvisited_term(visited@, i), v as int);
    }
    while stack.len() > 0
        invariant
            g == graph@,
            v == graph.len(),
            finished.len() == v,
            finished_in_order(g, finished),
            forall|x: int| 0 <= x < v ==> listed(finished, x),
            stack.len() + res.len() == finished.len(),
            forall|t: int| 0 <= t < stack.len() ==> stack[t] == finished[t],
            forall|t: int| 0 <= t < res.len() ==> res[t] == finished[finished.len() - 1 - t],
        decreases stack.len(),
    {
        match stack.pop() {
            Some(el) => {
                res.push(el);
            },
            None => {
                return Err(SortError::EmptyStack);
            },
        }
    }
    proof {
        let n = v as int;
        assert forall|x: int| 0 <= x < n implies listed(res@, x) by {
            assert(listed(finished, x));
            let t = choose|t: int| 0 <= t < finished.len() && #[trigger] finished[t] == x;
            assert(res@[n - 1 - t] == x);
        }
        assert forall|a: int, b: int|
            0 <= b <= a < n && has_edge(g, #[trigger] res[a] as int, #[trigger] res[b] as int)
                implies reaches(g, res[b] as int, res[a] as int) by {
            let x = res[a] as int;
            let y = res[b] as int;
            let pos = n - 1 - a;
            let k = choose|k: int| 0 <= k < graph[x].len() && #[trigger] graph[x][k] == y;
            assert(before_or_back(g, finished, pos, graph[finished[pos] as int][k] as int));
            if exists|j: int| 0 <= j < pos && #[trigger] finished[j] == y {
                let j = choose|j: int| 0 <= j < pos && #[trigger] finished[j] == y;
                assert(finished[n - 1 - b] == y);
            }
        }
    }
    Ok(res)
}

/// The sum of `k` ones is `k`.
proof fn lemma_sum_of_ones(k: int)
    requires
        k >= 0,
    ensures
        sum_to(|i: int| 1int, k) == k,
    decreases k,
{
    if k > 0 {
        lemma_sum_of_ones(k - 1);
    }
}

} // verus!
