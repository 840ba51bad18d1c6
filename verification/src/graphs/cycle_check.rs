//! A depth-first search that tells what it finds first: an edge back to a
//! vertex that the search is still below, which closes a cycle; an edge to
//! a vertex that it has finished with; or neither.

use crate::graphs::reachability::{
    has_edge,
    is_walk,
    lemma_edge_reaches,
    lemma_reaches_itself,
    lemma_reaches_transitive,
    lemma_walk_end_in_range,
    lemma_walk_from_second,
    reaches,
    well_formed,
};
use crate::summation::{lemma_sum_congruence, lemma_sum_point_update, lemma_sum_prefix, sum_to};
use vstd::prelude::*;

verus! {

/// How far the search has come with a vertex.
#[derive(Debug, Clone, Copy, PartialEq, Eq, Structural)]
pub enum VertexState {
    /// Not entered yet.
    Unvisited,
    /// Entered and left again.
    Visited,
    /// Entered; the search is somewhere below it.
    Explored,
}

/// What the search came upon first.
#[derive(Debug, Clone, Copy, PartialEq, Eq, Structural)]
pub enum CycleCheckResult {
    /// Every edge led to a vertex that had not been entered.
    NoCycle,
    /// An edge to a vertex that the search is still below.
    BackEdge,
    /// An edge to a vertex that the search has left.
    CrossEdge,
}

/// Vertex `x` has an edge to a vertex that reaches `x`.
pub open spec fn on_cycle(g: Seq<Vec<usize>>, x: int) -> bool {
    exists|y: int| #[trigger] has_edge(g, x, y) && reaches(g, y, x)
}

/// Some vertex lies on a cycle.
pub open spec fn has_cycle(g: Seq<Vec<usize>>) -> bool {
    exists|x: int| #[trigger] on_cycle(g, x)
}

/// What the search below the unvisited vertex `u` finds first, and the
/// states it leaves. `fuel` bounds how deep the search may go.
pub open spec fn visit(g: Seq<Vec<usize>>, states: Seq<VertexState>, u: int, fuel: nat) -> (
    Seq<VertexState>,
    CycleCheckResult,
)
    decreases fuel, g[u].len() + 1,
{
    scan(g, states.update(u, VertexState::Explored), u, 0, fuel)
}

/// What the search finds first along the edges of `u` from the `k`-th on,
/// and the states it leaves.
pub open spec fn scan(g: Seq<Vec<usize>>, states: Seq<VertexState>, u: int, k: int, fuel: nat) -> (
    Seq<VertexState>,
    CycleCheckResult,
)
    decreases fuel, g[u].len() - k,
{
    if k < 0 || k >= g[u].len() {
        (states.update(u, VertexState::Visited), CycleCheckResult::NoCycle)
    } else {
        let v = g[u][k] as int;
        match states[v] {
            VertexState::Explored => (states, CycleCheckResult::BackEdge),
            VertexState::Visited => (states, CycleCheckResult::CrossEdge),
            VertexState::Unvisited => if fuel == 0 {
                (states, CycleCheckResult::NoCycle)
            } else {
                let below = visit(g, states, v, (fuel - 1) as nat);
                if below.1 != CycleCheckResult::NoCycle {
                    below
                } else {
                    scan(g, below.0, u, k + 1, fuel)
                }
            },
        }
    }
}

/// What the searches from the vertices `i`, `i + 1`, ... find first, each
/// started only where the ones before left its vertex unvisited.
pub open spec fn sweep(g: Seq<Vec<usize>>, states: Seq<VertexState>, i: int) -> CycleCheckResult
    decreases g.len() - i,
{
    if i < 0 || i >= g.len() {
        CycleCheckResult::NoCycle
    } else if states[i] == VertexState::Unvisited {
        let below = visit(g, states, i, g.len());
        if below.1 != CycleCheckResult::NoCycle {
            below.1
        } else {
            sweep(g, below.0, i + 1)
        }
    } else {
        sweep(g, states, i + 1)
    }
}

/// What the search of the whole graph finds first.
pub open spec fn first_found(g: Seq<Vec<usize>>) -> CycleCheckResult {
    sweep(g, Seq::new(g.len(), |i: int| VertexState::Unvisited), 0)
}

/// One if vertex `i` is unvisited, else zero.
pub open spec fn unvisited_term(states: Seq<VertexState>, i: int) -> int {
    if states[i] == VertexState::Unvisited {
        1
    } else {
        0
    }
}

/// How many vertices are unvisited.
pub open spec fn unvisited(states: Seq<VertexState>) -> int {
    sum_to(|i: int| unvisited_term(states, i), states.len() as int)
}

/// Whatever a visited vertex reaches is visited, and no visited vertex lies
/// on a cycle.
pub open spec fn finished_part_is_closed(g: Seq<Vec<usize>>, states: Seq<VertexState>) -> bool {
    &&& forall|x: int, y: int|
        0 <= x < g.len() && states[x] == VertexState::Visited && #[trigger] reaches(g, x, y)
            ==> 0 <= y < g.len() && states[y] == VertexState::Visited
    &&& forall|x: int|
        0 <= x < g.len() && states[x] == VertexState::Visited ==> !#[trigger] on_cycle(g, x)
}

/// Entering a vertex leaves one unvisited vertex less.
proof fn lemma_unvisited_after_entering(states: Seq<VertexState>, u: int)
    requires
        0 <= u < states.len(),
        states[u] == VertexState::Unvisited,
    ensures
        unvisited(states.update(u, VertexState::Explored)) == unvisited(states) - 1,
        unvisited(states.update(u, VertexState::Explored)) >= 0,
{
    let after = states.update(u, VertexState::Explored);
    lemma_sum_point_update(
        |i: int| unvisited_term(states, i),
        |i: int| unvisited_term(after, i),
        states.len() as int,
        u,
    );
    lemma_sum_prefix(|i: int| unvisited_term(after, i), 0, states.len() as int);
}

/// Leaving a vertex changes nothing about how many are unvisited.
proof fn lemma_unvisited_after_leaving(states: Seq<VertexState>, u: int)
    requires
        0 <= u < states.len(),
        states[u] == VertexState::Explored,
    ensures
        unvisited(states.update(u, VertexState::Visited)) == unvisited(states),
{
    let after = states.update(u, VertexState::Visited);
    lemma_sum_congruence(
        |i: int| unvisited_term(states, i),
        |i: int| unvisited_term(after, i),
        states.len() as int,
    );
}

/// No more vertices are unvisited than there are.
proof fn lemma_unvisited_at_most(states: Seq<VertexState>, k: int)
    requires
        0 <= k,
    ensures
        0 <= sum_to(|i: int| unvisited_term(states, i), k) <= k,
    decreases k,
{
    if k > 0 {
        lemma_unvisited_at_most(states, k - 1);
    }
}

/// Searches below the unvisited vertex `u`.
fn dfs(al: &[Vec<usize>], v_states: &mut Vec<VertexState>, u: usize, Ghost(fuel): Ghost<nat>) -> (res:
    CycleCheckResult)
    requires
        well_formed(al@),
        old(v_states).len() == al.len(),
        u < al.len(),
        old(v_states)[u as int] == VertexState::Unvisited,
        unvisited(old(v_states)@) - 1 <= fuel,
        finished_part_is_closed(al@, old(v_states)@),
        forall|x: int|
            0 <= x < al.len() && #[trigger] old(v_states)[x] == VertexState::Explored ==> reaches(
                al@,
                x,
                u as int,
            ),
    ensures
        final(v_states).len() == al.len(),
        (final(v_states)@, res) == visit(al@, old(v_states)@, u as int, fuel),
        res == CycleCheckResult::BackEdge ==> has_cycle(al@),
        res == CycleCheckResult::NoCycle ==> {
            &&& final(v_states)[u as int] == VertexState::Visited
            &&& unvisited(final(v_states)@) < unvisited(old(v_states)@)
            &&& finished_part_is_closed(al@, final(v_states)@)
            &&& forall|x: int|
                0 <= x < al.len() && #[trigger] old(v_states)[x] == VertexState::Visited
                    ==> final(v_states)[x] == VertexState::Visited
            &&& forall|x: int|
                0 <= x < al.len() ==> (#[trigger] final(v_states)[x] == VertexState::Explored
                    <==> old(v_states)[x] == VertexState::Explored)
        },
    decreases fuel,
{
    proof {
        lemma_unvisited_after_entering(v_states@, u as int);
        lemma_reaches_itself(al@, u as int);
    }
    v_states.set(u, VertexState::Explored);
    proof {
        assert forall|x: int, y: int|
            0 <= x < al.len() && v_states[x] == VertexState::Visited && #[trigger] reaches(
                al@,
                x,
                y,
            ) implies 0 <= y < al.len() && v_states[y] == VertexState::Visited by {
            assert(old(v_states)[x] == VertexState::Visited);
        }
        assert forall|x: int|
            0 <= x < al.len() && v_states[x] == VertexState::Visited implies !#[trigger] on_cycle(
            al@,
            x,
        ) by {
            assert(old(v_states)[x] == VertexState::Visited);
        }
    }
    let mut k: usize = 0;
    while k < al[u].len()
        invariant
            well_formed(al@),
            v_states.len() == al.len(),
            u < al.len(),
            0 <= k <= al[u as int].len(),
            old(v_states).len() == al.len(),
            old(v_states)[u as int] == VertexState::Unvisited,
            v_states[u as int] == VertexState::Explored,
            scan(al@, v_states@, u as int, k as int, fuel) == visit(
                al@,
                old(v_states)@,
                u as int,
                fuel,
            ),
            0 <= unvisited(v_states@) <= fuel,
            unvisited(v_states@) < unvisited(old(v_states)@),
            finished_part_is_closed(al@, v_states@),
            forall|x: int|
                0 <= x < al.len() && #[trigger] v_states[x] == VertexState::Explored ==> reaches(
                    al@,
                    x,
                    u as int,
                ),
            forall|x: int|
                0 <= x < al.len() && #[trigger] old(v_states)[x] == VertexState::Visited
                    ==> v_states[x] == VertexState::Visited,
            forall|x: int|
                0 <= x < al.len() && x != u ==> (#[trigger] v_states[x] == VertexState::Explored
                    <==> old(v_states)[x] == VertexState::Explored),
            forall|j: int|
                0 <= j < k ==> v_states[(#[trigger] al[u as int][j]) as int]
                    == VertexState::Visited,
        decreases al[u as int].len() - k,
    {
        let v: usize = al[u][k];
        let ghost before = v_states@;
        proof {
            assert(al[u as int][k as int] < al.len());
            assert(has_edge(al@, u as int, v as int));
            lemma_edge_reaches(al@, u as int, v as int);
        }
        let res = match v_states[v] {
            VertexState::Unvisited => {
                proof {
                    lemma_unvisited_after_entering(v_states@, v as int);
                    assert forall|x: int|
                        0 <= x < al.len() && #[trigger] v_states[x]
                            == VertexState::Explored implies reaches(al@, x, v as int) by {
                        lemma_reaches_transitive(al@, x, u as int, v as int);
                    }
                }
                dfs(al, v_states, v, Ghost((fuel - 1) as nat))
            },
            VertexState::Explored => {
                proof {
                    assert(on_cycle(al@, u as int));
                }
                CycleCheckResult::BackEdge
            },
            VertexState::Visited => CycleCheckResult::CrossEdge,
        };
        if res != CycleCheckResult::NoCycle {
            return res;
        }
        proof {
            assert(before[v as int] == VertexState::Unvisited);
            assert forall|j: int| 0 <= j < k + 1 implies v_states[(
            #[trigger] al[u as int][j]) as int] == VertexState::Visited by {
                if j < k {
                    assert(before[al[u as int][j] as int] == VertexState::Visited);
                }
            }
            lemma_unvisited_at_most(v_states@, v_states.len() as int);
        }
        k += 1;
    }
    proof {
        let inner = v_states@;
        let after = inner.update(u as int, VertexState::Visited);
        lemma_unvisited_after_leaving(inner, u as int);
        assert forall|y: int| #[trigger] has_edge(al@, u as int, y) implies inner[y]
            == VertexState::Visited by {
            let j = choose|j: int| 0 <= j < al[u as int].len() && #[trigger] al[u as int][j] == y;
            assert(inner[al[u as int][j] as int] == VertexState::Visited);
        }
        assert forall|x: int, y: int|
            0 <= x < al.len() && after[x] == VertexState::Visited && #[trigger] reaches(
                al@,
                x,
                y,
            ) implies 0 <= y < al.len() && after[y] == VertexState::Visited by {
            if x == u {
                let walk = choose|walk: Seq<int>| #[trigger]
                    is_walk(al@, walk) && walk[0] == x && walk[walk.len() - 1] == y;
                lemma_walk_end_in_range(al@, walk);
                if walk.len() >= 2 {
                    lemma_walk_from_second(al@, walk);
                    assert(has_edge(al@, u as int, walk[1]));
                    assert(is_walk(al@, walk.drop_first()));
                    assert(reaches(al@, walk[1], y));
                    assert(inner[walk[1]] == VertexState::Visited);
                    assert(inner[y] == VertexState::Visited);
                }
            } else {
                assert(inner[x] == VertexState::Visited);
            }
        }
        assert forall|x: int|
            0 <= x < al.len() && after[x] == VertexState::Visited implies !#[trigger] on_cycle(
            al@,
            x,
        ) by {
            if x == u {
                if on_cycle(al@, x) {
                    let y = choose|y: int| #[trigger] has_edge(al@, x, y) && reaches(al@, y, x);
                    assert(inner[y] == VertexState::Visited);
                    assert(reaches(al@, y, u as int));
                    assert(has_edge(al@, u as int, y));
                    assert(0 <= y < al.len()) by {
                        let j = choose|j: int|
                            0 <= j < al[u as int].len() && #[trigger] al[u as int][j] == y;
                        assert(al[u as int][j] < al.len());
                    }
                }
            } else {
                assert(inner[x] == VertexState::Visited);
            }
        }
    }
    v_states.set(u, VertexState::Visited);
    CycleCheckResult::NoCycle
}

/// Searches the graph depth first, from every vertex that the searches from
/// the vertices before it did not reach, and tells what it comes upon
/// first. A back edge is found only where the graph has a cycle, and a
/// search that finds nothing shows that it has none.
pub fn cycle_check(al: &[Vec<usize>]) -> (res: CycleCheckResult)
    requires
        well_formed(al@),
    ensures
        res == first_found(al@),
        res == CycleCheckResult::BackEdge ==> has_cycle(al@),
        res == CycleCheckResult::NoCycle ==> !has_cycle(al@),
{
    let mut v_states: Vec<VertexState> = vec![VertexState::Unvisited; al.len()];
    assert(v_states@ =~= Seq::new(al@.len(), |i: int| VertexState::Unvisited));
    let mut i: usize = 0;
    while i < al.len()
        invariant
            well_formed(al@),
            v_states.len() == al.len(),
            0 <= i <= al.len(),
            sweep(al@, v_states@, i as int) == first_found(al@),
            finished_part_is_closed(al@, v_states@),
            forall|x: int| 0 <= x < al.len() ==> #[trigger] v_states[x] != VertexState::Explored,
            forall|x: int| 0 <= x < i ==> #[trigger] v_states[x] == VertexState::Visited,
        decreases al.len() - i,
    {
        let ghost before = v_states@;
        let res = match v_states[i] {
            VertexState::Unvisited => {
                proof {
                    lemma_unvisited_at_most(v_states@, v_states.len() as int);
                }
                dfs(al, &mut v_states, i, Ghost(al@.len()))
            },
            _ => CycleCheckResult::NoCycle,
        };
        if res != CycleCheckResult::NoCycle {
            return res;
        }
        proof {
            assert forall|x: int| 0 <= x < i + 1 implies #[trigger] v_states[x]
                == VertexState::Visited by {
                if x < i {
                    assert(before[x] == VertexState::Visited);
                }
            }
        }
        i += 1;
    }
    proof {
        if has_cycle(al@) {
            let x = choose|x: int| #[trigger] on_cycle(al@, x);
            let y = choose|y: int| #[trigger] has_edge(al@, x, y) && reaches(al@, y, x);
            assert(v_states[x] == VertexState::Visited);
        }
    }
    CycleCheckResult::NoCycle
}

} // verus!
