//! Shortest paths from one vertex by repeated relaxation of every edge,
//! for graphs given as a table of optional edge weights.
//!
//! The edges are relaxed in place, row by row, in two rounds fewer than
//! there are vertices. One more pass then looks for an edge that could
//! still be relaxed; if there is one, the distances are not final, as is
//! the case whenever a cycle of negative weight can be reached.

use crate::numeric::{max_value, zero};
use vstd::prelude::*;

verus! {

/// Why no distances were returned.
#[derive(Debug, Clone, Copy, PartialEq, Eq, Structural)]
pub enum ShortestPathError {
    /// Some edge could still be relaxed after the last round.
    NegativeCycle,
}

impl ShortestPathError {
    /// A human-readable description of the error.
    pub fn message(&self) -> (text: &'static str)
        ensures
            text@ == "Graph contains negative weight cycle"@,
    {
        "Graph contains negative weight cycle"
    }
}

/// The largest absolute value that a weight may have in a graph of
/// `vertices` vertices, for the sums of weights to stay within an `i64`.
pub open spec fn weight_limit(vertices: int) -> int {
    i64::MAX as int / (vertices * vertices * vertices + 1)
}

/// The table has a row for each vertex and in each row an entry for each
/// vertex, and no weight is beyond the limit.
pub open spec fn well_formed(graph: Seq<Vec<Option<i64>>>, vertices: int) -> bool {
    &&& graph.len() >= vertices
    &&& forall|u: int| 0 <= u < vertices ==> (#[trigger] graph[u]).len() >= vertices
    &&& forall|u: int, v: int|
        0 <= u < vertices && 0 <= v < vertices ==> (#[trigger] graph[u][v] matches Some(w)
            ==> -weight_limit(vertices) <= w <= weight_limit(vertices))
}

/// The graph has an edge from `u` to another vertex `v`. Entries on the
/// diagonal of the table are not edges.
pub open spec fn arc(graph: Seq<Vec<Option<i64>>>, vertices: int, u: int, v: int) -> bool {
    &&& 0 <= u < vertices
    &&& 0 <= v < vertices
    &&& u != v
    &&& graph[u][v] is Some
}

/// `path` lists at least one vertex, and each vertex of it has an edge to
/// the next.
pub open spec fn is_path(graph: Seq<Vec<Option<i64>>>, vertices: int, path: Seq<int>) -> bool {
    &&& path.len() >= 1
    &&& 0 <= path[0] < vertices
    &&& forall|k: int|
        0 <= k < path.len() - 1 ==> arc(graph, vertices, #[trigger] path[k], path[k + 1])
}

/// `path` leads from `from` to `to`.
pub open spec fn connects(
    graph: Seq<Vec<Option<i64>>>,
    vertices: int,
    path: Seq<int>,
    from: int,
    to: int,
) -> bool {
    is_path(graph, vertices, path) && path[0] == from && path[path.len() - 1] == to
}

/// The weights of the edges of `path` added up.
pub open spec fn weight(graph: Seq<Vec<Option<i64>>>, path: Seq<int>) -> int
    decreases path.len(),
{
    if path.len() <= 1 {
        0
    } else {
        weight(graph, path.drop_last()) + graph[path[path.len() - 2]][path[path.len()
            - 1]].unwrap()
    }
}

/// `d` is the distance from `src` to `v`: the least weight of a path from
/// the one to the other, or the largest `i64` where there is no path.
pub open spec fn is_distance(
    graph: Seq<Vec<Option<i64>>>,
    vertices: int,
    src: int,
    v: int,
    d: int,
) -> bool {
    if d == i64::MAX {
        forall|path: Seq<int>| !#[trigger] connects(graph, vertices, path, src, v)
    } else {
        &&& exists|path: Seq<int>| #[trigger]
            connects(graph, vertices, path, src, v) && weight(graph, path) == d
        &&& forall|path: Seq<int>| #[trigger]
            connects(graph, vertices, path, src, v) ==> weight(graph, path) >= d
    }
}

/// The edge from `u` to `v` offers a shorter way to `v` than `dist` knows.
pub open spec fn relaxes(graph: Seq<Vec<Option<i64>>>, dist: Seq<i64>, u: int, v: int) -> bool {
    &&& u != v
    &&& dist[u] != i64::MAX
    &&& graph[u][v] matches Some(w) && dist[u] + w < dist[v]
}

/// Some edge offers a shorter way than `dist` knows.
pub open spec fn relaxable(graph: Seq<Vec<Option<i64>>>, vertices: int, dist: Seq<i64>) -> bool {
    exists|u: int, v: int|
        0 <= u < vertices && 0 <= v < vertices && #[trigger] relaxes(graph, dist, u, v)
}

/// `dist` after the edge from `u` to `v` has been looked at.
pub open spec fn relax(graph: Seq<Vec<Option<i64>>>, dist: Seq<i64>, u: int, v: int) -> Seq<i64> {
    if relaxes(graph, dist, u, v) {
        dist.update(v, (dist[u] + graph[u][v].unwrap()) as i64)
    } else {
        dist
    }
}

/// `dist` after the first `v` entries of row `u` have been looked at.
pub open spec fn row(graph: Seq<Vec<Option<i64>>>, dist: Seq<i64>, u: int, v: int) -> Seq<i64>
    decreases v,
{
    if v <= 0 {
        dist
    } else {
        relax(graph, row(graph, dist, u, v - 1), u, v - 1)
    }
}

/// `dist` after the first `u` rows have been looked at.
pub open spec fn rows(graph: Seq<Vec<Option<i64>>>, vertices: int, dist: Seq<i64>, u: int) -> Seq<
    i64,
>
    decreases u,
{
    if u <= 0 {
        dist
    } else {
        row(graph, rows(graph, vertices, dist, u - 1), u - 1, vertices)
    }
}

/// What is known of the distances from `src` after `r` rounds.
pub open spec fn rounds(graph: Seq<Vec<Option<i64>>>, vertices: int, src: int, r: int) -> Seq<i64>
    decreases r,
{
    if r <= 0 {
        Seq::new(vertices as nat, |i: int| i64::MAX).update(src, 0i64)
    } else {
        rows(graph, vertices, rounds(graph, vertices, src, r - 1), vertices)
    }
}

/// How many entries have been looked at when entry `v` of row `u` comes up
/// in round `r`, all counted from zero.
pub open spec fn looked_at(vertices: int, r: int, u: int, v: int) -> int {
    r * (vertices * vertices) + u * vertices + v
}

/// What the limit on the weights leaves room for.
proof fn lemma_room(vertices: int, r: int, u: int, v: int)
    requires
        0 <= r,
        r + 3 <= vertices,
        0 <= u < vertices,
        0 <= v < vertices,
    ensures
        0 <= looked_at(vertices, r, u, v),
        looked_at(vertices, r, u, v) + 1 <= vertices * vertices * vertices,
        looked_at(vertices, r, u, v) + 1 == looked_at(vertices, r, u, v + 1),
        looked_at(vertices, r, u, vertices) == looked_at(vertices, r, u + 1, 0),
        looked_at(vertices, r, vertices, 0) == looked_at(vertices, r + 1, 0, 0),
{
    let n = vertices;
    assert(r * (n * n) + u * n + v + 1 <= n * n * n && 0 <= r * (n * n) + u * n + v && u * n + n
        == (u + 1) * n && r * (n * n) + n * n == (r + 1) * (n * n)) by (nonlinear_arith)
        requires
            0 <= r,
            r + 3 <= n,
            0 <= u < n,
            0 <= v < n,
    ;
}

/// The limit times one more than the cube of the vertex count fits.
proof fn lemma_weight_limit(vertices: int, count: int)
    requires
        1 <= vertices,
        0 <= count <= vertices * vertices * vertices,
    ensures
        0 <= weight_limit(vertices),
        0 <= count * weight_limit(vertices),
        count * weight_limit(vertices) + weight_limit(vertices) <= i64::MAX,
        count < vertices * vertices * vertices ==> count * weight_limit(vertices) + weight_limit(
            vertices,
        ) < i64::MAX,
        (count + 1) * weight_limit(vertices) == count * weight_limit(vertices) + weight_limit(
            vertices,
        ),
{
    let n = vertices;
    let cube = n * n * n;
    assert(cube >= 1) by (nonlinear_arith)
        requires
            cube == n * n * n,
            n >= 1,
    ;
    let limit = weight_limit(n);
    assert(0 <= limit && (cube + 1) * limit <= i64::MAX) by (nonlinear_arith)
        requires
            limit == i64::MAX as int / (cube + 1),
            cube >= 1,
    ;
    assert(0 <= count * limit && count * limit + limit <= (cube + 1) * limit && (count + 1) * limit
        == count * limit + limit) by (nonlinear_arith)
        requires
            0 <= limit,
            0 <= count <= cube,
    ;
    if count < cube {
        if limit >= 1 {
            assert(count * limit + limit < (cube + 1) * limit) by (nonlinear_arith)
                requires
                    1 <= limit,
                    0 <= count < cube,
            ;
        } else {
            assert(count * limit == 0) by (nonlinear_arith)
                requires
                    limit == 0,
            ;
        }
    }
}

/// What the search keeps of every vertex that it has found a way to: a
/// path from `src` whose weight is the distance noted, which is within
/// `reach` of zero.
pub open spec fn witnessed(
    graph: Seq<Vec<Option<i64>>>,
    vertices: int,
    src: int,
    dist: Seq<i64>,
    routes: Seq<Seq<int>>,
    reach: int,
) -> bool {
    &&& dist.len() == vertices
    &&& routes.len() == vertices
    &&& 0 <= src < vertices
    &&& dist[src] <= 0
    &&& forall|v: int|
        0 <= v < vertices && #[trigger] dist[v] != i64::MAX ==> connects(
            graph,
            vertices,
            routes[v],
            src,
            v,
        ) && weight(graph, routes[v]) == dist[v] && -reach <= dist[v] <= reach
}

/// A path grows by an edge out of its end, and its weight by the weight of
/// that edge.
proof fn lemma_path_push(graph: Seq<Vec<Option<i64>>>, vertices: int, path: Seq<int>, v: int)
    requires
        is_path(graph, vertices, path),
        arc(graph, vertices, path[path.len() - 1], v),
    ensures
        is_path(graph, vertices, path.push(v)),
        weight(graph, path.push(v)) == weight(graph, path) + graph[path[path.len() - 1]][v].unwrap(),
{
    let longer = path.push(v);
    assert forall|k: int| 0 <= k < longer.len() - 1 implies arc(
        graph,
        vertices,
        #[trigger] longer[k],
        longer[k + 1],
    ) by {
        if k < path.len() - 1 {
            assert(arc(graph, vertices, path[k], path[k + 1]));
        }
    }
    assert(longer.drop_last() =~= path);
}

/// Where no edge can be relaxed, no path from `src` weighs less than the
/// difference of what is noted for its end and for `src`.
proof fn lemma_no_shorter_path(
    graph: Seq<Vec<Option<i64>>>,
    vertices: int,
    src: int,
    dist: Seq<i64>,
    path: Seq<int>,
    reach: int,
)
    requires
        well_formed(graph, vertices),
        dist.len() == vertices,
        0 <= src < vertices,
        dist[src] != i64::MAX,
        !relaxable(graph, vertices, dist),
        is_path(graph, vertices, path),
        path[0] == src,
        forall|v: int| 0 <= v < vertices && #[trigger] dist[v] != i64::MAX ==> dist[v] <= reach,
        reach + weight_limit(vertices) < i64::MAX,
    ensures
        0 <= path[path.len() - 1] < vertices,
        dist[path[path.len() - 1]] != i64::MAX,
        dist[path[path.len() - 1]] <= dist[src] + weight(graph, path),
    decreases path.len(),
{
    if path.len() > 1 {
        let shorter = path.drop_last();
        let u = path[path.len() - 2];
        let v = path[path.len() - 1];
        assert forall|k: int| 0 <= k < shorter.len() - 1 implies arc(
            graph,
            vertices,
            #[trigger] shorter[k],
            shorter[k + 1],
        ) by {
            assert(arc(graph, vertices, path[k], path[k + 1]));
        }
        lemma_no_shorter_path(graph, vertices, src, dist, shorter, reach);
        assert(arc(graph, vertices, path[path.len() - 2], path[path.len() - 2 + 1]));
        assert(!relaxes(graph, dist, u, v));
        assert(dist[u] <= reach);
    }
}

/// Looks at the edge from `u` to `v` and notes a shorter way to `v` if the
/// edge offers one.
fn relax_edge(
    graph: &Vec<Vec<Option<i64>>>,
    dist: &mut Vec<i64>,
    u: usize,
    v: usize,
    vertices: usize,
    Ghost(src): Ghost<int>,
    Ghost(routes): Ghost<Seq<Seq<int>>>,
    Ghost(count): Ghost<int>,
) -> (after: Ghost<Seq<Seq<int>>>)
    requires
        well_formed(graph@, vertices as int),
        u < vertices,
        v < vertices,
        0 <= count < vertices * vertices * vertices,
        witnessed(
            graph@,
            vertices as int,
            src,
            old(dist)@,
            routes,
            count * weight_limit(vertices as int),
        ),
    ensures
        final(dist)@ == relax(graph@, old(dist)@, u as int, v as int),
        witnessed(
            graph@,
            vertices as int,
            src,
            final(dist)@,
            after@,
            (count + 1) * weight_limit(vertices as int),
        ),
{
    let ghost limit = weight_limit(vertices as int);
    let ghost mut next = routes;
    proof {
        lemma_weight_limit(vertices as int, count);
    }
    if u != v {
        match graph[u][v] {
            None => {},
            Some(w) => {
                if dist[u] != max_value() {
                    assert(-limit <= w <= limit) by {
                        assert(graph@[u as int][v as int] matches Some(x) ==> -limit <= x <= limit);
                    }
                    if dist[u] + w < dist[v] {
                        let shorter: i64 = w + dist[u];
                        proof {
                            assert(arc(graph@, vertices as int, u as int, v as int));
                            lemma_path_push(graph@, vertices as int, routes[u as int], v as int);
                            next = routes.update(v as int, routes[u as int].push(v as int));
                        }
                        dist.set(v, shorter);
                    }
                }
            },
        }
    }
    proof {
        assert forall|x: int| 0 <= x < vertices && #[trigger] dist[x] != i64::MAX implies connects(
            graph@,
            vertices as int,
            next[x],
            src,
            x,
        ) && weight(graph@, next[x]) == dist[x] && -((count + 1) * limit) <= dist[x] <= (count + 1)
            * limit by {
            if dist[x] == old(dist)[x] {
                assert(old(dist)[x] != i64::MAX);
            }
        }
    }
    Ghost(next)
}

/// The least weights of the paths from `src` to every vertex of the graph
/// whose edge from `u` to `v` has the weight `graph[u][v]`, entries on the
/// diagonal left aside.
///
/// The edges are relaxed in `vertices - 2` rounds. If an edge can still be
/// relaxed after them, as is the case where a cycle of negative weight can
/// be reached, the search fails. With two vertices nothing is relaxed and
/// nothing looked for, so that the answer holds what is known at the start.
pub fn bellman_ford(graph: Vec<Vec<Option<i64>>>, src: usize, vertices: usize) -> (result: Result<
    Vec<i64>,
    ShortestPathError,
>)
    requires
        src < vertices,
        well_formed(graph@, vertices as int),
    ensures
        result is Ok <==> vertices <= 2 || !relaxable(
            graph@,
            vertices as int,
            rounds(graph@, vertices as int, src as int, vertices - 2),
        ),
        result matches Ok(dist) ==> dist@ == rounds(
            graph@,
            vertices as int,
            src as int,
            vertices - 2,
        ),
        result matches Ok(dist) ==> vertices != 2 ==> forall|v: int|
            0 <= v < vertices ==> is_distance(
                graph@,
                vertices as int,
                src as int,
                v,
                #[trigger] dist[v] as int,
            ),
        result matches Err(e) ==> e == ShortestPathError::NegativeCycle,
{
    let ghost limit = weight_limit(vertices as int);
    let ghost cube = vertices * vertices * vertices;
    let unreached: i64 = max_value();
    let mut dist: Vec<i64> = vec![unreached; vertices];
    dist.set(src, zero());
    let ghost mut routes: Seq<Seq<int>> = Seq::new(vertices as nat, |i: int| seq![src as int]);
    proof {
        assert(dist@ =~= rounds(graph@, vertices as int, src as int, 0));
        assert(is_path(graph@, vertices as int, seq![src as int]));
        assert(0 * limit == 0) by (nonlinear_arith);
    }
    let mut round: usize = 1;
    while round < vertices - 1
        invariant
            1 <= round,
            src < vertices,
            vertices <= 2 ==> round == 1,
            vertices >= 3 ==> round <= vertices - 1,
            limit == weight_limit(vertices as int),
            well_formed(graph@, vertices as int),
            dist@ == rounds(graph@, vertices as int, src as int, round - 1),
            witnessed(
                graph@,
                vertices as int,
                src as int,
                dist@,
                routes,
                looked_at(vertices as int, round - 1, 0, 0) * limit,
            ),
        decreases vertices - round,
    {
        let ghost at_start = dist@;
        let mut u: usize = 0;
        while u < vertices
            invariant
                0 <= u <= vertices,
                1 <= round < vertices - 1,
                src < vertices,
                limit == weight_limit(vertices as int),
                well_formed(graph@, vertices as int),
                at_start == rounds(graph@, vertices as int, src as int, round - 1),
                dist@ == rows(graph@, vertices as int, at_start, u as int),
                witnessed(
                    graph@,
                    vertices as int,
                    src as int,
                    dist@,
                    routes,
                    looked_at(vertices as int, round - 1, u as int, 0) * limit,
                ),
            decreases vertices - u,
        {
            let ghost at_row = dist@;
            let mut v: usize = 0;
            while v < vertices
                invariant
                    0 <= v <= vertices,
                    0 <= u < vertices,
                    1 <= round < vertices - 1,
                    src < vertices,
                    limit == weight_limit(vertices as int),
                    well_formed(graph@, vertices as int),
                    dist@ == row(graph@, at_row, u as int, v as int),
                    witnessed(
                        graph@,
                        vertices as int,
                        src as int,
                        dist@,
                        routes,
                        looked_at(vertices as int, round - 1, u as int, v as int) * limit,
                    ),
                decreases vertices - v,
            {
                proof {
                    lemma_room(vertices as int, round - 1, u as int, v as int);
                }
                let after = relax_edge(
                    &graph,
                    &mut dist,
                    u,
                    v,
                    vertices,
                    Ghost(src as int),
                    Ghost(routes),
                    Ghost(looked_at(vertices as int, round - 1, u as int, v as int)),
                );
                proof {
                    routes = after@;
                }
                v += 1;
            }
            proof {
                lemma_room(vertices as int, round - 1, u as int, 0);
            }
            u += 1;
        }
        proof {
            lemma_room(vertices as int, round - 1, 0, 0);
        }
        round += 1;
    }
    let ghost reach = looked_at(vertices as int, round - 1, 0, 0) * limit;
    proof {
        if vertices >= 3 {
            lemma_room(vertices as int, vertices - 3, vertices - 1, vertices - 1);
            assert(looked_at(vertices as int, round - 1, 0, 0) < cube) by (nonlinear_arith)
                requires
                    round == vertices - 1,
                    vertices >= 3,
                    cube == vertices * vertices * vertices,
            ;
            assert(0 <= looked_at(vertices as int, round - 1, 0, 0)) by (nonlinear_arith)
                requires
                    round == vertices - 1,
                    vertices >= 3,
            ;
        } else {
            assert(looked_at(vertices as int, 0, 0, 0) == 0) by (nonlinear_arith);
            assert(0 < cube) by (nonlinear_arith)
                requires
                    cube == vertices * vertices * vertices,
                    vertices >= 1,
            ;
        }
        lemma_weight_limit(vertices as int, looked_at(vertices as int, round - 1, 0, 0));
    }
    let mut pass: usize = 1;
    while pass < vertices - 1
        invariant
            1 <= pass,
            src < vertices,
            unreached == i64::MAX,
            vertices <= 2 ==> pass == 1,
            vertices >= 3 ==> pass <= vertices - 1,
            limit == weight_limit(vertices as int),
            well_formed(graph@, vertices as int),
            dist@ == rounds(graph@, vertices as int, src as int, vertices - 2),
            witnessed(graph@, vertices as int, src as int, dist@, routes, reach),
            0 <= reach,
            reach + limit <= i64::MAX,
            pass > 1 ==> !relaxable(graph@, vertices as int, dist@),
        decreases vertices - pass,
    {
        let mut u: usize = 0;
        while u < vertices
            invariant
                0 <= u <= vertices,
                src < vertices,
                unreached == i64::MAX,
                limit == weight_limit(vertices as int),
                well_formed(graph@, vertices as int),
                dist@ == rounds(graph@, vertices as int, src as int, vertices - 2),
                witnessed(graph@, vertices as int, src as int, dist@, routes, reach),
                0 <= reach,
                reach + limit <= i64::MAX,
                3 <= vertices,
                forall|a: int, b: int|
                    0 <= a < u && 0 <= b < vertices ==> !#[trigger] relaxes(graph@, dist@, a, b),
            decreases vertices - u,
        {
            let mut v: usize = 0;
            while v < vertices
                invariant
                    0 <= v <= vertices,
                    0 <= u < vertices,
                    src < vertices,
                    unreached == i64::MAX,
                    limit == weight_limit(vertices as int),
                    well_formed(graph@, vertices as int),
                    dist@ == rounds(graph@, vertices as int, src as int, vertices - 2),
                    witnessed(graph@, vertices as int, src as int, dist@, routes, reach),
                    0 <= reach,
                    reach + limit <= i64::MAX,
                    3 <= vertices,
                    forall|a: int, b: int|
                        0 <= a < u && 0 <= b < vertices ==> !#[trigger] relaxes(
                            graph@,
                            dist@,
                            a,
                            b,
                        ),
                    forall|b: int| 0 <= b < v ==> !#[trigger] relaxes(graph@, dist@, u as int, b),
                decreases vertices - v,
            {
                if u != v {
                    match graph[u][v] {
                        None => {},
                        Some(w) => {
                            if dist[u] != unreached {
                                assert(-limit <= w <= limit) by {
                                    assert(graph@[u as int][v as int] matches Some(x) ==> -limit
                                        <= x <= limit);
                                }
                                if dist[u] + w < dist[v] {
                                    assert(relaxes(graph@, dist@, u as int, v as int));
                                    return Err(ShortestPathError::NegativeCycle);
                                }
                            }
                        },
                    }
                }
                v += 1;
            }
            u += 1;
        }
        proof {
            if relaxable(graph@, vertices as int, dist@) {
                let (a, b) = choose|a: int, b: int|
                    0 <= a < vertices && 0 <= b < vertices && #[trigger] relaxes(
                        graph@,
                        dist@,
                        a,
                        b,
                    );
                assert(!relaxes(graph@, dist@, a, b));
            }
        }
        pass += 1;
    }
    proof {
        if vertices != 2 {
            if vertices == 1 {
                assert(!relaxable(graph@, vertices as int, dist@));
            }
            assert forall|v: int| 0 <= v < vertices implies is_distance(
                graph@,
                vertices as int,
                src as int,
                v,
                #[trigger] dist[v] as int,
            ) by {
                assert forall|path: Seq<int>| #[trigger]
                    connects(graph@, vertices as int, path, src as int, v) implies dist[v]
                    != i64::MAX && weight(graph@, path) >= dist[v] by {
                    lemma_no_shorter_path(graph@, vertices as int, src as int, dist@, path, reach);
                    lemma_no_shorter_path(
                        graph@,
                        vertices as int,
                        src as int,
                        dist@,
                        routes[src as int],
                        reach,
                    );
                }
                if dist[v] != i64::MAX {
                    assert(connects(graph@, vertices as int, routes[v], src as int, v));
                }
            }
        }
    }
    Ok(dist)
}

} // verus!
