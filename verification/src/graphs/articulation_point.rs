//! Articulation points by depth-first search: every vertex is numbered as
//! the search enters it and keeps the least number that the search below
//! it has seen, and a vertex is marked where the search below one of its
//! children has seen no number less than its own.

use crate::graphs::reachability::{has_edge, is_walk, lemma_walk_in_range, reaches, well_formed};
use crate::graphs::separation::{
    avoids,
    is_articulation_point,
    joined_without,
    lemma_edge_joins,
    lemma_joined_symmetric,
    lemma_joined_to_itself,
    lemma_joined_transitive,
    lemma_walk_stays,
    symmetric,
};
use crate::graphs::search::{
    lemma_unset_count_after_mark,
    lemma_unset_count_at_most,
    lemma_unset_count_nonnegative,
    unset_count,
};
use vstd::prelude::*;

verus! {

/// What the search has noted of every vertex, and its counters.
pub struct Marks {
    /// The number that each vertex got when the search entered it.
    pub num: Seq<Option<usize>>,
    /// The least number that the search below each vertex has seen.
    pub low: Seq<Option<usize>>,
    /// Which vertices have been marked.
    pub cut: Seq<bool>,
    /// The vertex that the search entered each vertex from.
    pub parent: Seq<Option<usize>>,
    /// The number that the next vertex will get.
    pub counter: int,
    /// How many vertices the search has entered from the vertex that it
    /// started at.
    pub root_children: int,
}

/// The lesser of two numbers.
pub open spec fn lesser(a: usize, b: usize) -> usize {
    if a <= b {
        a
    } else {
        b
    }
}

/// What the search that started at `root` notes when it enters `u` and
/// goes on from there. `fuel` bounds how deep the search may go.
pub open spec fn entered(al: Seq<Vec<usize>>, m: Marks, root: int, u: int, fuel: nat) -> Marks
    decreases fuel, al[u].len() + 1,
{
    scanned(al, numbered(m, u), root, u, 0, fuel)
}

/// The marks once `u` has got its number.
pub open spec fn numbered(m: Marks, u: int) -> Marks {
    Marks {
        num: m.num.update(u, Some(m.counter as usize)),
        low: m.low.update(u, Some(m.counter as usize)),
        counter: m.counter + 1,
        ..m
    }
}

/// The marks once the search is about to enter `v` from `u`.
pub open spec fn descending(m: Marks, root: int, u: int, v: int) -> Marks {
    Marks {
        parent: m.parent.update(v, Some(u as usize)),
        root_children: if u == root {
            m.root_children + 1
        } else {
            m.root_children
        },
        ..m
    }
}

/// The marks once the search has come back to `u` from `v`: `u` is marked
/// if the search below `v` has seen no number less than that of `u`, and
/// takes over the least number seen there if that is less than its own.
pub open spec fn returned(m: Marks, u: int, v: int) -> Marks {
    Marks {
        cut: if m.low[v].unwrap() >= m.num[u].unwrap() {
            m.cut.update(u, true)
        } else {
            m.cut
        },
        low: m.low.update(u, Some(lesser(m.low[u].unwrap(), m.low[v].unwrap()))),
        ..m
    }
}

/// The marks once the search has looked from `u` at the numbered vertex
/// `v`: unless `u` was entered from `v`, `u` takes over the number of `v`
/// if that is less than the least it has seen.
pub open spec fn glanced(m: Marks, u: int, v: int) -> Marks {
    if m.parent[u] != Some(v as usize) {
        Marks { low: m.low.update(u, Some(lesser(m.low[u].unwrap(), m.num[v].unwrap()))), ..m }
    } else {
        m
    }
}

/// What the search notes along the edges of `u` from the `k`-th on.
pub open spec fn scanned(al: Seq<Vec<usize>>, m: Marks, root: int, u: int, k: int, fuel: nat) -> Marks
    decreases fuel, al[u].len() - k,
{
    if k < 0 || k >= al[u].len() {
        m
    } else {
        let v = al[u][k] as int;
        if m.num[v] is None {
            if fuel == 0 {
                m
            } else {
                let below = entered(al, descending(m, root, u, v), root, v, (fuel - 1) as nat);
                scanned(al, returned(below, u, v), root, u, k + 1, fuel)
            }
        } else {
            scanned(al, glanced(m, u, v), root, u, k + 1, fuel)
        }
    }
}

/// What the searches from the vertices `u`, `u + 1`, ... note, each
/// started only where the ones before left its vertex without a number. A
/// vertex that a search starts at is marked if the search entered more
/// than one vertex from it.
pub open spec fn swept(al: Seq<Vec<usize>>, m: Marks, u: int) -> Marks
    decreases al.len() - u,
{
    if u < 0 || u >= al.len() {
        m
    } else if m.num[u] is None {
        let below = entered(al, Marks { root_children: 0, ..m }, u, u, al.len());
        let after = Marks { cut: below.cut.update(u, below.root_children > 1), ..below };
        swept(al, after, u + 1)
    } else {
        swept(al, m, u + 1)
    }
}

/// Nothing noted of any of `n` vertices.
pub open spec fn blank(n: nat, counter: int, root_children: int) -> Marks {
    Marks {
        num: Seq::new(n, |i: int| None::<usize>),
        low: Seq::new(n, |i: int| None::<usize>),
        cut: Seq::new(n, |i: int| false),
        parent: Seq::new(n, |i: int| None::<usize>),
        counter,
        root_children,
    }
}

/// Vertex `y` is one of those that the search is below.
pub open spec fn on_stack(stack: Seq<int>, y: int) -> bool {
    exists|i: int| 0 <= i < stack.len() && #[trigger] stack[i] == y
}

/// Vertex `x` has no number in `earlier` and has one in `later`.
pub open spec fn fresh(earlier: Seq<Option<usize>>, later: Seq<Option<usize>>, x: int) -> bool {
    0 <= x < later.len() && earlier[x] is None && later[x] is Some
}

/// `later` holds every number that `earlier` holds.
pub open spec fn numbered_on(earlier: Seq<Option<usize>>, later: Seq<Option<usize>>) -> bool {
    &&& later.len() == earlier.len()
    &&& forall|x: int|
        0 <= x < earlier.len() && (#[trigger] earlier[x]) is Some ==> later[x] == earlier[x]
}

/// Some walk leads from `a` to `b` through vertices that have no number
/// in `earlier` and have one in `later`.
pub open spec fn joined_inside(
    g: Seq<Vec<usize>>,
    earlier: Seq<Option<usize>>,
    later: Seq<Option<usize>>,
    a: int,
    b: int,
) -> bool {
    exists|walk: Seq<int>| #[trigger]
        is_walk(g, walk) && walk[0] == a && walk[walk.len() - 1] == b && forall|k: int|
            0 <= k < walk.len() ==> fresh(earlier, later, #[trigger] walk[k])
}

/// Every vertex that has no number in `earlier` and has one in `later`
/// can be reached from `u` through such vertices.
pub open spec fn joined_all(
    g: Seq<Vec<usize>>,
    earlier: Seq<Option<usize>>,
    later: Seq<Option<usize>>,
    u: int,
) -> bool {
    forall|x: int| fresh(earlier, later, x) ==> #[trigger] joined_inside(g, earlier, later, u, x)
}

/// What links a numbered vertex `c` to the tree of the search: it is the
/// root of its tree, or the search entered it from a vertex numbered
/// before it, over an edge, in the same tree. Once the search has left
/// `c` and come back to that vertex, that vertex is the root, or marked,
/// or `c` is joined to the root without passing it.
pub open spec fn linked(
    g: Seq<Vec<usize>>,
    m: Marks,
    tree: Seq<int>,
    stack: Seq<int>,
    pending: Set<int>,
    c: int,
) -> bool {
    match m.parent[c] {
        Some(p) => {
            &&& p < g.len()
            &&& m.num[p as int] is Some
            &&& m.num[p as int].unwrap() < m.num[c].unwrap()
            &&& has_edge(g, p as int, c)
            &&& tree[p as int] == tree[c]
            &&& tree[c] != c
            &&& (on_stack(stack, c) || pending.contains(c) || p == tree[c] || m.cut[p as int]
                || joined_without(g, p as int, c, tree[c]))
        },
        None => tree[c] == c,
    }
}

/// The search entered at most one vertex from `x`.
pub open spec fn lone_child(parent: Seq<Option<usize>>, x: int) -> bool {
    forall|c: int, d: int|
        #![trigger parent[c], parent[d]]
        0 <= c < parent.len() && 0 <= d < parent.len() && parent[c] == Some(x as usize)
            && parent[d] == Some(x as usize) ==> c == d
}

/// The lists have an entry for each vertex; numbers are below the
/// counter; a vertex that the search entered another from is numbered;
/// and only numbered vertices are marked.
pub open spec fn shaped(g: Seq<Vec<usize>>, m: Marks, tree: Seq<int>) -> bool {
    &&& m.num.len() == g.len()
    &&& m.low.len() == g.len()
    &&& m.cut.len() == g.len()
    &&& m.parent.len() == g.len()
    &&& tree.len() == g.len()
    &&& g.len() <= usize::MAX
    &&& m.root_children >= 0
    &&& forall|x: int|
        0 <= x < g.len() && (#[trigger] m.num[x]) is Some ==> m.num[x].unwrap() < m.counter && 0
            <= tree[x] < g.len()
    &&& forall|c: int|
        0 <= c < g.len() ==> (#[trigger] m.parent[c] matches Some(p) ==> p < g.len()
            && m.num[p as int] is Some)
    &&& forall|x: int| 0 <= x < g.len() && #[trigger] m.cut[x] ==> m.num[x] is Some
}

/// What the marks show once every search that was started has come to its
/// end: the numbered vertices have edges to numbered vertices of the same
/// tree only, every marked vertex is an articulation point, every numbered
/// vertex is linked to its tree, and a root that is not marked has at most
/// one child.
pub open spec fn settled(g: Seq<Vec<usize>>, m: Marks, tree: Seq<int>) -> bool {
    &&& shaped(g, m, tree)
    &&& forall|x: int, y: int|
        0 <= x < g.len() && m.num[x] is Some && #[trigger] has_edge(g, x, y) ==> m.num[y] is Some
            && tree[y] == tree[x]
    &&& forall|x: int| 0 <= x < g.len() && #[trigger] m.cut[x] ==> is_articulation_point(g, x)
    &&& forall|c: int|
        0 <= c < g.len() && m.num[c] is Some ==> #[trigger] linked(
            g,
            m,
            tree,
            Seq::empty(),
            Set::empty(),
            c,
        )
    &&& forall|x: int|
        0 <= x < g.len() && m.num[x] is Some && #[trigger] tree[x] == x ==> m.cut[x] || lone_child(
            m.parent,
            x,
        )
    &&& forall|x: int| 0 <= x < g.len() && (#[trigger] m.num[x]) is None ==> m.parent[x] is None
}

/// A vertex other than `x` in the tree of `x` is joined to the root of the
/// tree without passing `x`, if `x` is neither the root nor marked.
proof fn lemma_climb(g: Seq<Vec<usize>>, m: Marks, tree: Seq<int>, x: int, a: int)
    requires
        well_formed(g),
        symmetric(g),
        settled(g, m, tree),
        0 <= x < g.len(),
        0 <= a < g.len(),
        m.num[a] is Some,
        0 <= tree[x] < g.len(),
        tree[x] != x,
        !m.cut[x],
        a != x,
        tree[a] == tree[x],
    ensures
        joined_without(g, x, a, tree[x]),
    decreases m.num[a].unwrap(),
{
    assert(linked(g, m, tree, Seq::empty(), Set::empty(), a));
    assert(!on_stack(Seq::empty(), a));
    if a == tree[a] {
        lemma_joined_to_itself(g, x, a);
    } else {
        let p = m.parent[a].unwrap() as int;
        if p != x {
            lemma_edge_joins(g, x, a, p);
            lemma_climb(g, m, tree, x, p);
            lemma_joined_transitive(g, x, a, p, tree[x]);
        }
    }
}

/// A vertex other than the root `r` in its tree is joined without passing
/// `r` to a vertex that the search entered from `r`.
proof fn lemma_climb_to_child(g: Seq<Vec<usize>>, m: Marks, tree: Seq<int>, r: int, a: int) -> (c:
    int)
    requires
        well_formed(g),
        symmetric(g),
        settled(g, m, tree),
        0 <= r < g.len(),
        0 <= a < g.len(),
        m.num[a] is Some,
        a != r,
        tree[a] == r,
    ensures
        0 <= c < g.len(),
        m.num[c] is Some,
        m.parent[c] == Some(r as usize),
        joined_without(g, r, a, c),
    decreases m.num[a].unwrap(),
{
    assert(linked(g, m, tree, Seq::empty(), Set::empty(), a));
    let p = m.parent[a].unwrap() as int;
    if p == r {
        lemma_joined_to_itself(g, r, a);
        a
    } else {
        let c = lemma_climb_to_child(g, m, tree, r, p);
        lemma_edge_joins(g, r, a, p);
        lemma_joined_transitive(g, r, a, p, c);
        c
    }
}

/// Every vertex of a walk that starts at a numbered vertex is numbered and
/// lies in the tree of the first.
proof fn lemma_walk_in_tree(g: Seq<Vec<usize>>, m: Marks, tree: Seq<int>, walk: Seq<int>, k: int)
    requires
        well_formed(g),
        settled(g, m, tree),
        is_walk(g, walk),
        m.num[walk[0]] is Some,
        0 <= k < walk.len(),
    ensures
        0 <= walk[k] < g.len(),
        m.num[walk[k]] is Some,
        tree[walk[k]] == tree[walk[0]],
    decreases k,
{
    if k > 0 {
        lemma_walk_in_tree(g, m, tree, walk, k - 1);
        lemma_walk_in_range(g, walk, k);
        let j = choose|j: int| 0 <= j < g[walk[k - 1]].len() && #[trigger] g[walk[k - 1]][j] == walk[k];
        assert(g[walk[k - 1]][j] < g.len());
    }
}

/// Once every vertex is numbered and every search has come to its end,
/// the marked vertices are the articulation points.
proof fn lemma_marks_are_articulation_points(
    g: Seq<Vec<usize>>,
    m: Marks,
    tree: Seq<int>,
    x: int,
)
    requires
        well_formed(g),
        symmetric(g),
        settled(g, m, tree),
        forall|v: int| 0 <= v < g.len() ==> (#[trigger] m.num[v]) is Some,
        0 <= x < g.len(),
    ensures
        m.cut[x] <==> is_articulation_point(g, x),
{
    if is_articulation_point(g, x) && !m.cut[x] {
        let (a, b) = choose|a: int, b: int|
            a != x && b != x && #[trigger] reaches(g, a, b) && !joined_without(g, x, a, b);
        let walk = choose|walk: Seq<int>| #[trigger]
            is_walk(g, walk) && walk[0] == a && walk[walk.len() - 1] == b;
        assert forall|k: int| 0 <= k < walk.len() implies 0 <= #[trigger] walk[k] < g.len()
            && tree[walk[k]] == tree[a] by {
            lemma_walk_in_tree(g, m, tree, walk, k);
        }
        assert(walk[walk.len() - 1] == b);
        assert(m.num[x] is Some && m.num[a] is Some && m.num[b] is Some);
        if tree[a] != tree[x] {
            assert(avoids(walk, x));
            assert(is_walk(g, walk) && walk[0] == a && walk[walk.len() - 1] == b && avoids(walk, x));
        } else if tree[x] != x {
            let r = tree[x];
            lemma_climb(g, m, tree, x, a);
            lemma_climb(g, m, tree, x, b);
            lemma_joined_symmetric(g, x, b, r);
            lemma_joined_transitive(g, x, a, r, b);
        } else {
            let c = lemma_climb_to_child(g, m, tree, x, a);
            let d = lemma_climb_to_child(g, m, tree, x, b);
            assert(lone_child(m.parent, x));
            assert(m.parent[c] == Some(x as usize) && m.parent[d] == Some(x as usize));
            assert(c == d);
            lemma_joined_symmetric(g, x, b, d);
            lemma_joined_transitive(g, x, a, c, b);
        }
    }
}

/// The vertices that the search is below are numbered in rising order,
/// from the root `r` of their tree on, each with an edge to the next.
pub open spec fn stacked(
    g: Seq<Vec<usize>>,
    num: Seq<Option<usize>>,
    tree: Seq<int>,
    stack: Seq<int>,
    r: int,
) -> bool {
    &&& forall|i: int|
        0 <= i < stack.len() ==> 0 <= #[trigger] stack[i] < g.len() && num[stack[i]] is Some
            && tree[stack[i]] == r
    &&& stack.len() > 0 ==> stack[0] == r
    &&& forall|i: int, j: int|
        0 <= i < j < stack.len() ==> num[#[trigger] stack[i]].unwrap() < num[
            #[trigger] stack[j]].unwrap()
    &&& forall|i: int| 0 <= i < stack.len() - 1 ==> has_edge(g, #[trigger] stack[i], stack[i + 1])
}

/// A numbered vertex that the search has left has edges to numbered
/// vertices of its tree only.
pub open spec fn left_behind(
    g: Seq<Vec<usize>>,
    num: Seq<Option<usize>>,
    tree: Seq<int>,
    stack: Seq<int>,
) -> bool {
    forall|x: int, y: int|
        0 <= x < g.len() && num[x] is Some && !on_stack(stack, x) && #[trigger] has_edge(g, x, y)
            ==> num[y] is Some && tree[y] == tree[x]
}

/// The count of the vertices that the search has entered from `r` is
/// right as far as it tells none from one from more, and `r` is an
/// articulation point if there are two.
pub open spec fn counted(g: Seq<Vec<usize>>, m: Marks, r: int) -> bool {
    &&& m.root_children == 0 ==> forall|c: int|
        0 <= c < g.len() ==> #[trigger] m.parent[c] != Some(r as usize)
    &&& m.root_children <= 1 ==> lone_child(m.parent, r)
    &&& m.root_children >= 2 ==> is_articulation_point(g, r)
}

/// What holds while the tree of `r` is searched: a numbered vertex that
/// the search has left has edges to numbered vertices of its tree only;
/// every marked vertex but `r` is an articulation point; every numbered
/// vertex is linked to its tree; the roots of the trees before are marked
/// or have at most one child; and the children of `r` are counted.
pub open spec fn orderly(
    g: Seq<Vec<usize>>,
    m: Marks,
    tree: Seq<int>,
    stack: Seq<int>,
    pending: Set<int>,
    r: int,
) -> bool {
    &&& shaped(g, m, tree)
    &&& stacked(g, m.num, tree, stack, r)
    &&& left_behind(g, m.num, tree, stack)
    &&& forall|x: int|
        0 <= x < g.len() && x != r && #[trigger] m.cut[x] ==> is_articulation_point(g, x)
    &&& forall|c: int|
        0 <= c < g.len() && m.num[c] is Some ==> #[trigger] linked(g, m, tree, stack, pending, c)
    &&& forall|x: int|
        0 <= x < g.len() && m.num[x] is Some && x != r && #[trigger] tree[x] == x ==> m.cut[x]
            || lone_child(m.parent, x)
    &&& counted(g, m, r)
}

/// Every edge out of a vertex that has got its number between `earlier`
/// and `later` leads to another such vertex, or to one that the search is
/// below and whose number is no less than `least`, or from `u` to the
/// vertex that `u` was entered from.
pub open spec fn hemmed_in(
    g: Seq<Vec<usize>>,
    earlier: Seq<Option<usize>>,
    later: Seq<Option<usize>>,
    stack: Seq<int>,
    u: int,
    least: int,
) -> bool {
    forall|x: int, y: int|
        fresh(earlier, later, x) && #[trigger] has_edge(g, x, y) ==> fresh(earlier, later, y) || (
        on_stack(stack, y) && (later[y].unwrap() >= least || (x == u && y == stack[stack.len()
            - 1])))
}

/// `least` is no greater than the number of `u`, and if it is less, it
/// is the number of a vertex that the search is below and that a vertex
/// numbered between `earlier` and `later` has an edge to.
pub open spec fn low_is_seen(
    g: Seq<Vec<usize>>,
    earlier: Seq<Option<usize>>,
    later: Seq<Option<usize>>,
    stack: Seq<int>,
    u: int,
    least: int,
) -> bool {
    &&& least <= later[u].unwrap()
    &&& least < later[u].unwrap() ==> exists|x: int, i: int|
        fresh(earlier, later, x) && 0 <= i < stack.len() && #[trigger] has_edge(g, x, stack[i])
            && later[stack[i]].unwrap() == least
}

/// What a search leaves as it was: whatever was noted of the vertices
/// numbered before, and the trees of all but the vertices that it has
/// numbered, which lie in the tree of `r` and have numbers no less than
/// the counter was.
pub open spec fn kept(
    g: Seq<Vec<usize>>,
    before: Marks,
    after: Marks,
    tree: Seq<int>,
    grown: Seq<int>,
    r: int,
) -> bool {
    &&& numbered_on(before.num, after.num)
    &&& forall|x: int|
        0 <= x < g.len() && (#[trigger] before.num[x]) is Some ==> after.low[x] == before.low[x]
            && after.cut[x] == before.cut[x] && after.parent[x] == before.parent[x]
    &&& forall|x: int|
        0 <= x < g.len() && !fresh(before.num, after.num, x) ==> #[trigger] grown[x] == tree[x]
    &&& forall|x: int|
        fresh(before.num, after.num, x) ==> #[trigger] grown[x] == r && after.num[x].unwrap()
            >= before.counter
    &&& forall|x: int|
        0 <= x < g.len() && (#[trigger] after.num[x]) is None ==> after.parent[x]
            == before.parent[x]
    &&& after.counter >= before.counter
}

/// A vertex other than `u` is among those that the search is below once
/// `u` has been entered exactly if it was before.
proof fn lemma_on_longer_stack(stack: Seq<int>, u: int, y: int)
    ensures
        on_stack(stack.push(u), y) <==> on_stack(stack, y) || y == u,
{
    let longer = stack.push(u);
    if on_stack(stack, y) {
        let i = choose|i: int| 0 <= i < stack.len() && #[trigger] stack[i] == y;
        assert(longer[i] == y);
    }
    if y == u {
        assert(longer[stack.len() as int] == y);
    }
    if on_stack(longer, y) {
        let i = choose|i: int| 0 <= i < longer.len() && #[trigger] longer[i] == y;
        if i < stack.len() {
            assert(stack[i] == y);
        }
    }
}

/// What holds of the vertices that the search is below once `u` has been
/// entered holds of those that it was below before.
proof fn lemma_shorter_stack(
    g: Seq<Vec<usize>>,
    num: Seq<Option<usize>>,
    tree: Seq<int>,
    stack: Seq<int>,
    r: int,
    u: int,
)
    requires
        stacked(g, num, tree, stack.push(u), r),
    ensures
        stacked(g, num, tree, stack, r),
        !on_stack(stack, u),
        num[u] is Some,
        tree[u] == r,
        0 <= u < g.len(),
        forall|i: int|
            0 <= i < stack.len() ==> num[#[trigger] stack[i]].unwrap() < num[u].unwrap(),
        stack.len() > 0 ==> has_edge(g, stack[stack.len() - 1], u),
        stack.len() == 0 ==> u == r,
{
    let open = stack.push(u);
    assert(open[stack.len() as int] == u);
    assert forall|a: int| 0 <= a < stack.len() implies 0 <= #[trigger] stack[a] < g.len()
        && num[stack[a]] is Some && tree[stack[a]] == r && num[stack[a]].unwrap()
        < num[u].unwrap() by {
        assert(open[a] == stack[a]);
        assert(num[open[a]].unwrap() < num[open[stack.len() as int]].unwrap());
    }
    if stack.len() > 0 {
        assert(open[0] == stack[0]);
        assert(open[stack.len() - 1] == stack[stack.len() - 1]);
        assert(has_edge(g, open[stack.len() - 1], open[stack.len() - 1 + 1]));
    }
    assert forall|a: int, c: int| 0 <= a < c < stack.len() implies num[
        #[trigger] stack[a]].unwrap() < num[#[trigger] stack[c]].unwrap() by {
        assert(open[a] == stack[a] && open[c] == stack[c]);
    }
    assert forall|a: int| 0 <= a < stack.len() - 1 implies has_edge(
        g,
        #[trigger] stack[a],
        stack[a + 1],
    ) by {
        assert(open[a] == stack[a] && open[a + 1] == stack[a + 1]);
        assert(has_edge(g, open[a], open[a + 1]));
    }
    if on_stack(stack, u) {
        let i = choose|i: int| 0 <= i < stack.len() && #[trigger] stack[i] == u;
        assert(num[stack[i]].unwrap() < num[u].unwrap());
    }
}

/// From a vertex that the search is below, the root of the tree can be
/// reached down the stack without passing a vertex that is not on it.
proof fn lemma_down_the_stack(
    g: Seq<Vec<usize>>,
    num: Seq<Option<usize>>,
    tree: Seq<int>,
    stack: Seq<int>,
    r: int,
    x: int,
    i: int,
)
    requires
        well_formed(g),
        symmetric(g),
        stacked(g, num, tree, stack, r),
        !on_stack(stack, x),
        0 <= i < stack.len(),
    ensures
        joined_without(g, x, stack[i], r),
    decreases i,
{
    assert(on_stack(stack, stack[i]));
    if i == 0 {
        lemma_joined_to_itself(g, x, stack[0]);
    } else {
        assert(has_edge(g, stack[i - 1], stack[i - 1 + 1]));
        assert(on_stack(stack, stack[i - 1]));
        lemma_edge_joins(g, x, stack[i], stack[i - 1]);
        lemma_down_the_stack(g, num, tree, stack, r, x, i - 1);
        lemma_joined_transitive(g, x, stack[i], stack[i - 1], r);
    }
}

/// A walk from the child `v` of `u` that does not pass `u` stays among the
/// vertices numbered below `v`, if the search below `v` has seen no
/// number less than that of `u`.
proof fn lemma_child_is_cut_off(
    g: Seq<Vec<usize>>,
    earlier: Seq<Option<usize>>,
    later: Seq<Option<usize>>,
    tree: Seq<int>,
    stack: Seq<int>,
    r: int,
    u: int,
    v: int,
    least: int,
    b: int,
)
    requires
        well_formed(g),
        stacked(g, later, tree, stack.push(u), r),
        hemmed_in(g, earlier, later, stack.push(u), v, least),
        fresh(earlier, later, v),
        least >= later[u].unwrap(),
        joined_without(g, u, v, b),
    ensures
        fresh(earlier, later, b),
{
    let walk = choose|walk: Seq<int>| #[trigger]
        is_walk(g, walk) && walk[0] == v && walk[walk.len() - 1] == b && avoids(walk, u);
    let part = Set::new(|x: int| fresh(earlier, later, x));
    let open = stack.push(u);
    lemma_shorter_stack(g, later, tree, stack, r, u);
    assert forall|a: int, c: int| part.contains(a) && #[trigger] has_edge(g, a, c) implies part.contains(
        c,
    ) || c == u by {
        if !fresh(earlier, later, c) {
            lemma_on_longer_stack(stack, u, c);
            assert(open[open.len() - 1] == u);
            if c != u {
                let i = choose|i: int| 0 <= i < stack.len() && #[trigger] stack[i] == c;
                assert(later[stack[i]].unwrap() < later[u].unwrap());
            }
        }
    }
    lemma_walk_stays(g, part, u, walk, walk.len() - 1);
}

/// The child `v` of `u` is joined to the root without passing `u` if the
/// search below `v` has seen a number less than that of `u`.
proof fn lemma_child_escapes(
    g: Seq<Vec<usize>>,
    earlier: Seq<Option<usize>>,
    later: Seq<Option<usize>>,
    tree: Seq<int>,
    stack: Seq<int>,
    r: int,
    u: int,
    v: int,
    least: int,
)
    requires
        well_formed(g),
        symmetric(g),
        stacked(g, later, tree, stack.push(u), r),
        low_is_seen(g, earlier, later, stack.push(u), v, least),
        joined_all(g, earlier, later, v),
        fresh(earlier, later, v),
        !fresh(earlier, later, u),
        least < later[u].unwrap(),
        later[u].unwrap() < later[v].unwrap(),
    ensures
        joined_without(g, u, v, r),
        u != r,
{
    let open = stack.push(u);
    lemma_shorter_stack(g, later, tree, stack, r, u);
    let (x, i) = choose|x: int, i: int|
        fresh(earlier, later, x) && 0 <= i < open.len() && #[trigger] has_edge(g, x, open[i])
            && later[open[i]].unwrap() == least;
    assert(open[stack.len() as int] == u);
    assert(i < stack.len());
    assert(open[i] == stack[i]);
    assert(joined_inside(g, earlier, later, v, x));
    let walk = choose|walk: Seq<int>| #[trigger]
        is_walk(g, walk) && walk[0] == v && walk[walk.len() - 1] == x && forall|k: int|
            0 <= k < walk.len() ==> fresh(earlier, later, #[trigger] walk[k]);
    assert(avoids(walk, u)) by {
        assert forall|k: int| 0 <= k < walk.len() implies #[trigger] walk[k] != u by {
            assert(fresh(earlier, later, walk[k]));
        }
    }
    assert(is_walk(g, walk) && walk[0] == v && walk[walk.len() - 1] == x && avoids(walk, u));
    assert(on_stack(stack, stack[i]));
    assert(on_stack(stack, stack[0]));
    lemma_edge_joins(g, u, x, stack[i]);
    lemma_down_the_stack(g, later, tree, stack, r, u, i);
    lemma_joined_transitive(g, u, v, x, stack[i]);
    lemma_joined_transitive(g, u, v, stack[i], r);
}

/// What holds as the search is about to enter `u`: `u` has no number;
/// it is the root `r` and nothing has been entered from it, or it is
/// entered from the last of the vertices that the search is below.
pub open spec fn entering(g: Seq<Vec<usize>>, m: Marks, stack: Seq<int>, r: int, u: int) -> bool {
    &&& 0 <= u < g.len()
    &&& 0 <= r < g.len()
    &&& 0 <= m.counter <= usize::MAX
    &&& m.num[u] is None
    &&& stack.len() == 0 ==> u == r && m.parent[u] is None && m.root_children == 0
    &&& stack.len() > 0 ==> u != r && m.parent[u] == Some(stack[stack.len() - 1] as usize)
        && has_edge(g, stack[stack.len() - 1], u)
}

/// Some vertex next to `r` is joined only to numbered vertices by walks
/// that do not pass `r`.
pub open spec fn sealed(g: Seq<Vec<usize>>, num: Seq<Option<usize>>, r: int) -> bool {
    exists|c: int|
        c != r && #[trigger] has_edge(g, r, c) && forall|b: int| #[trigger]
            joined_without(g, r, c, b) ==> 0 <= b < g.len() && num[b] is Some
}

/// Vertex `y` has got its number between `earlier` and `later`, or the
/// search is below it and it is the last that the search is below or has
/// a number no less than `least`.
pub open spec fn seen_from(
    earlier: Seq<Option<usize>>,
    later: Seq<Option<usize>>,
    stack: Seq<int>,
    y: int,
    least: int,
) -> bool {
    fresh(earlier, later, y) || (on_stack(stack, y) && (later[y].unwrap() >= least || y
        == stack[stack.len() - 1]))
}

/// Every edge out of a vertex other than `u` that has got its number
/// between `earlier` and `later` leads to another such vertex or to one
/// that the search is below and whose number is no less than `least`.
pub open spec fn hemmed_below(
    g: Seq<Vec<usize>>,
    earlier: Seq<Option<usize>>,
    later: Seq<Option<usize>>,
    stack: Seq<int>,
    u: int,
    least: int,
) -> bool {
    forall|x: int, y: int|
        fresh(earlier, later, x) && x != u && #[trigger] has_edge(g, x, y) ==> fresh(
            earlier,
            later,
            y,
        ) || (on_stack(stack, y) && later[y].unwrap() >= least)
}

/// The first `k` vertices that `u` has an edge to have been seen.
pub open spec fn seen_so_far(
    g: Seq<Vec<usize>>,
    earlier: Seq<Option<usize>>,
    later: Seq<Option<usize>>,
    stack: Seq<int>,
    u: int,
    k: int,
    least: int,
) -> bool {
    forall|j: int|
        0 <= j < k && j < g[u].len() ==> seen_from(
            earlier,
            later,
            stack,
            (#[trigger] g[u][j]) as int,
            least,
        )
}

/// Every vertex numbered in `earlier` that `u` has an edge to is one that
/// the search is below.
pub open spec fn met_before(
    g: Seq<Vec<usize>>,
    earlier: Seq<Option<usize>>,
    stack: Seq<int>,
    u: int,
) -> bool {
    forall|y: int|
        0 <= y < g.len() && earlier[y] is Some && #[trigger] has_edge(g, u, y) ==> on_stack(
            stack,
            y,
        )
}

/// What holds while the search looks along the edges of `u`, the first
/// `k` of them done.
pub open spec fn scanning(
    g: Seq<Vec<usize>>,
    before: Marks,
    now: Marks,
    tree: Seq<int>,
    grown: Seq<int>,
    stack: Seq<int>,
    r: int,
    u: int,
    k: int,
) -> bool {
    &&& entering(g, before, stack, r, u)
    &&& orderly(g, now, grown, stack.push(u), Set::empty(), r)
    &&& kept(g, before, now, tree, grown, r)
    &&& now.num[u] == Some(before.counter as usize)
    &&& now.low[u] is Some
    &&& now.parent[u] == before.parent[u]
    &&& hemmed_below(g, before.num, now.num, stack, u, now.low[u].unwrap() as int)
    &&& seen_so_far(g, before.num, now.num, stack, u, k, now.low[u].unwrap() as int)
    &&& joined_all(g, before.num, now.num, u)
    &&& low_is_seen(g, before.num, now.num, stack, u, now.low[u].unwrap() as int)
    &&& met_before(g, before.num, stack, u)
    &&& u == r && now.root_children >= 1 ==> sealed(g, now.num, r)
}

/// What a search that entered `u` leaves when it comes back.
pub open spec fn searched(
    g: Seq<Vec<usize>>,
    before: Marks,
    after: Marks,
    tree: Seq<int>,
    grown: Seq<int>,
    stack: Seq<int>,
    r: int,
    u: int,
) -> bool {
    &&& orderly(g, after, grown, stack, Set::empty().insert(u), r)
    &&& kept(g, before, after, tree, grown, r)
    &&& after.num[u] == Some(before.counter as usize)
    &&& after.low[u] is Some
    &&& after.parent[u] == before.parent[u]
    &&& hemmed_in(g, before.num, after.num, stack, u, after.low[u].unwrap() as int)
    &&& joined_all(g, before.num, after.num, u)
    &&& low_is_seen(g, before.num, after.num, stack, u, after.low[u].unwrap() as int)
}

/// Entering `u` and giving it its number starts the look along its edges.
proof fn lemma_begin(
    g: Seq<Vec<usize>>,
    before: Marks,
    tree: Seq<int>,
    stack: Seq<int>,
    r: int,
    u: int,
)
    requires
        well_formed(g),
        symmetric(g),
        orderly(g, before, tree, stack, Set::empty(), r),
        entering(g, before, stack, r, u),
    ensures
        scanning(g, before, numbered(before, u), tree, tree.update(u, r), stack, r, u, 0),
{
    let now = numbered(before, u);
    let grown = tree.update(u, r);
    let open = stack.push(u);
    let none = Set::<int>::empty();
    assert forall|y: int| on_stack(open, y) <==> on_stack(stack, y) || y == u by {
        lemma_on_longer_stack(stack, u, y);
    }
    assert forall|i: int| 0 <= i < stack.len() implies #[trigger] stack[i] != u
        && before.num[stack[i]].unwrap() < before.counter by {
        assert(before.num[stack[i]] is Some);
    }
    assert(!on_stack(stack, u));
    assert(stacked(g, now.num, grown, open, r)) by {
        assert forall|i: int| 0 <= i < open.len() implies 0 <= #[trigger] open[i] < g.len()
            && now.num[open[i]] is Some && grown[open[i]] == r by {
            if i < stack.len() {
                assert(open[i] == stack[i]);
            }
        }
        assert forall|i: int, j: int| 0 <= i < j < open.len() implies now.num[
            #[trigger] open[i]].unwrap() < now.num[#[trigger] open[j]].unwrap() by {
            assert(open[i] == stack[i]);
            if j < stack.len() {
                assert(open[j] == stack[j]);
            }
        }
        assert forall|i: int| 0 <= i < open.len() - 1 implies has_edge(
            g,
            #[trigger] open[i],
            open[i + 1],
        ) by {
            assert(open[i] == stack[i]);
            if i + 1 < stack.len() {
                assert(open[i + 1] == stack[i + 1]);
                assert(has_edge(g, stack[i], stack[i + 1]));
            }
        }
        if stack.len() > 0 {
            assert(open[0] == stack[0]);
        }
    }
    assert forall|c: int| 0 <= c < g.len() && now.num[c] is Some implies #[trigger] linked(
        g,
        now,
        grown,
        open,
        none,
        c,
    ) by {
        if c != u {
            assert(before.num[c] is Some);
            assert(linked(g, before, tree, stack, none, c));
            lemma_on_longer_stack(stack, u, c);
        } else {
            lemma_on_longer_stack(stack, u, u);
            if stack.len() > 0 {
                let q = stack[stack.len() - 1];
                assert(before.num[q] is Some);
            }
        }
    }
    assert(left_behind(g, now.num, grown, open)) by {
        assert forall|x: int, y: int|
            0 <= x < g.len() && now.num[x] is Some && !on_stack(open, x) && #[trigger] has_edge(
                g,
                x,
                y,
            ) implies now.num[y] is Some && grown[y] == grown[x] by {
            assert(before.num[x] is Some && !on_stack(stack, x));
            assert(before.num[y] is Some && tree[y] == tree[x]);
        }
    }
    assert forall|x: int|
        0 <= x < g.len() && now.num[x] is Some && x != r && #[trigger] grown[x] == x implies now.cut[x]
        || lone_child(now.parent, x) by {
        if x != u {
            assert(before.num[x] is Some);
            assert(tree[x] == x);
        }
    }
    assert(shaped(g, now, grown)) by {
        assert forall|x: int| 0 <= x < g.len() && (#[trigger] now.num[x]) is Some implies now.num[x].unwrap()
            < now.counter && 0 <= grown[x] < g.len() by {
            if x != u {
                assert(before.num[x] is Some);
            }
        }
        assert forall|x: int| 0 <= x < g.len() && #[trigger] now.cut[x] implies now.num[x] is Some by {
            assert(before.cut[x]);
        }
        assert forall|c: int| 0 <= c < g.len() implies (#[trigger] now.parent[c] matches Some(p)
            ==> p < g.len() && now.num[p as int] is Some) by {
            assert(before.parent[c] matches Some(p) ==> p < g.len() && before.num[p as int] is Some);
        }
    }
    assert forall|x: int| fresh(before.num, now.num, x) implies x == u by {}
    assert(joined_inside(g, before.num, now.num, u, u)) by {
        let walk = seq![u];
        assert(is_walk(g, walk) && walk[0] == u && walk[walk.len() - 1] == u);
        assert forall|k: int| 0 <= k < walk.len() implies fresh(
            before.num,
            now.num,
            #[trigger] walk[k],
        ) by {}
    }
    assert(met_before(g, before.num, stack, u)) by {
        assert forall|y: int|
            0 <= y < g.len() && before.num[y] is Some && #[trigger] has_edge(
                g,
                u,
                y,
            ) implies on_stack(stack, y) by {
            if !on_stack(stack, y) {
                assert(has_edge(g, y, u));
            }
        }
    }
    assert(kept(g, before, now, tree, grown, r));
    assert(counted(g, now, r));
}

/// What holds while a tree is searched does not depend on the least
/// numbers seen.
proof fn lemma_orderly_whatever_seen(
    g: Seq<Vec<usize>>,
    m: Marks,
    other: Marks,
    tree: Seq<int>,
    stack: Seq<int>,
    pending: Set<int>,
    r: int,
)
    requires
        orderly(g, m, tree, stack, pending, r),
        other == (Marks { low: other.low, ..m }),
        other.low.len() == g.len(),
    ensures
        orderly(g, other, tree, stack, pending, r),
{
    assert forall|c: int| 0 <= c < g.len() && other.num[c] is Some implies #[trigger] linked(
        g,
        other,
        tree,
        stack,
        pending,
        c,
    ) by {
        assert(linked(g, m, tree, stack, pending, c));
    }
    assert forall|x: int|
        0 <= x < g.len() && other.num[x] is Some && x != r && #[trigger] tree[x] == x implies other.cut[x]
        || lone_child(other.parent, x) by {
        assert(m.cut[x] || lone_child(m.parent, x));
    }
}

/// Looking from `u` at a vertex that has a number keeps what holds of
/// the look along the edges of `u`.
proof fn lemma_glance(
    g: Seq<Vec<usize>>,
    before: Marks,
    now: Marks,
    tree: Seq<int>,
    grown: Seq<int>,
    stack: Seq<int>,
    r: int,
    u: int,
    k: int,
    v: int,
)
    requires
        well_formed(g),
        symmetric(g),
        scanning(g, before, now, tree, grown, stack, r, u, k),
        0 <= k < g[u].len(),
        v == g[u][k],
        now.num[v] is Some,
    ensures
        scanning(g, before, glanced(now, u, v), tree, grown, stack, r, u, k + 1),
{
    let next = glanced(now, u, v);
    let open = stack.push(u);
    let least = now.low[u].unwrap() as int;
    let lower = next.low[u].unwrap() as int;
    assert(g[u][k] < g.len());
    assert(has_edge(g, u, v));
    assert(lower <= least);
    assert(next == (Marks { low: next.low, ..now }));
    lemma_orderly_whatever_seen(g, now, next, grown, open, Set::empty(), r);
    assert(fresh(before.num, now.num, u));
    assert(kept(g, before, next, tree, grown, r));
    assert(hemmed_below(g, before.num, next.num, stack, u, lower));
    assert(seen_so_far(g, before.num, next.num, stack, u, k + 1, lower)) by {
        assert forall|j: int| 0 <= j < k + 1 && j < g[u].len() implies seen_from(
            before.num,
            next.num,
            stack,
            (#[trigger] g[u][j]) as int,
            lower,
        ) by {
            if j < k {
                assert(seen_from(before.num, now.num, stack, g[u][j] as int, least));
            } else if !fresh(before.num, now.num, v) {
                assert(before.num[v] is Some);
                assert(on_stack(stack, v));
            }
        }
    }
    assert(low_is_seen(g, before.num, next.num, stack, u, lower)) by {
        if lower < next.num[u].unwrap() {
            if lower == least {
                let (x, i) = choose|x: int, i: int|
                    fresh(before.num, now.num, x) && 0 <= i < stack.len() && #[trigger] has_edge(
                        g,
                        x,
                        stack[i],
                    ) && now.num[stack[i]].unwrap() == least;
                assert(fresh(before.num, next.num, x) && has_edge(g, x, stack[i]));
            } else {
                assert(lower == now.num[v].unwrap());
                if fresh(before.num, now.num, v) {
                    assert(now.num[v].unwrap() >= before.counter);
                }
                assert(before.num[v] is Some);
                assert(on_stack(stack, v));
                let i = choose|i: int| 0 <= i < stack.len() && #[trigger] stack[i] == v;
                assert(fresh(before.num, next.num, u) && has_edge(g, u, stack[i]));
            }
        }
    }
}

/// Before the search goes from `u` down to a vertex without a number, all
/// is in order for it to enter that vertex.
proof fn lemma_descend(
    g: Seq<Vec<usize>>,
    before: Marks,
    now: Marks,
    tree: Seq<int>,
    grown: Seq<int>,
    stack: Seq<int>,
    r: int,
    u: int,
    k: int,
    v: int,
)
    requires
        well_formed(g),
        symmetric(g),
        scanning(g, before, now, tree, grown, stack, r, u, k),
        0 <= k < g[u].len(),
        v == g[u][k],
        now.num[v] is None,
        0 <= now.counter <= usize::MAX,
    ensures
        orderly(g, descending(now, r, u, v), grown, stack.push(u), Set::empty(), r),
        entering(g, descending(now, r, u, v), stack.push(u), r, v),
{
    let next = descending(now, r, u, v);
    let open = stack.push(u);
    let none = Set::<int>::empty();
    assert(g[u][k] < g.len());
    assert(has_edge(g, u, v));
    lemma_shorter_stack(g, now.num, grown, stack, r, u);
    assert(open[open.len() - 1] == u);
    assert(open[0] == r);
    assert(now.num[open[0]] is Some);
    assert forall|c: int| 0 <= c < g.len() && next.num[c] is Some implies #[trigger] linked(
        g,
        next,
        grown,
        open,
        none,
        c,
    ) by {
        assert(linked(g, now, grown, open, none, c));
    }
    assert forall|x: int|
        0 <= x < g.len() && next.num[x] is Some && x != r && #[trigger] grown[x] == x implies next.cut[x]
        || lone_child(next.parent, x) by {
        assert(now.cut[x] || lone_child(now.parent, x));
        assert(x != u);
        if lone_child(now.parent, x) {
            assert forall|c: int, d: int|
                #![trigger next.parent[c], next.parent[d]]
                0 <= c < next.parent.len() && 0 <= d < next.parent.len() && next.parent[c] == Some(
                    x as usize,
                ) && next.parent[d] == Some(x as usize) implies c == d by {
                assert(c != v && d != v);
                assert(now.parent[c] == next.parent[c] && now.parent[d] == next.parent[d]);
            }
        }
    }
    assert(counted(g, next, r)) by {
        if u == r {
            if next.root_children <= 1 {
                assert(now.root_children == 0);
                assert forall|c: int, d: int|
                    #![trigger next.parent[c], next.parent[d]]
                    0 <= c < next.parent.len() && 0 <= d < next.parent.len() && next.parent[c]
                        == Some(r as usize) && next.parent[d] == Some(r as usize) implies c == d by {
                    if c != v {
                        assert(now.parent[c] != Some(r as usize));
                    }
                    if d != v {
                        assert(now.parent[d] != Some(r as usize));
                    }
                }
            } else if now.root_children == 1 {
                assert(sealed(g, now.num, r));
                let c = choose|c: int|
                    c != r && #[trigger] has_edge(g, r, c) && forall|b: int| #[trigger]
                        joined_without(g, r, c, b) ==> 0 <= b < g.len() && now.num[b] is Some;
                assert(has_edge(g, c, r));
                let walk = seq![c, r, v];
                assert(is_walk(g, walk)) by {
                    assert forall|j: int| 0 <= j < walk.len() - 1 implies has_edge(
                        g,
                        #[trigger] walk[j],
                        walk[j + 1],
                    ) by {}
                    let t = choose|t: int| 0 <= t < g[r].len() && #[trigger] g[r][t] == c;
                    assert(g[r][t] < g.len());
                }
                assert(reaches(g, c, v)) by {
                    assert(is_walk(g, walk) && walk[0] == c && walk[walk.len() - 1] == v);
                }
                assert(!joined_without(g, r, c, v));
                assert(is_articulation_point(g, r)) by {
                    assert(c != r && v != r && reaches(g, c, v) && !joined_without(g, r, c, v));
                }
            }
        } else {
            if next.root_children <= 1 {
                assert forall|c: int, d: int|
                    #![trigger next.parent[c], next.parent[d]]
                    0 <= c < next.parent.len() && 0 <= d < next.parent.len() && next.parent[c]
                        == Some(r as usize) && next.parent[d] == Some(r as usize) implies c == d by {
                    assert(c != v && d != v);
                    assert(now.parent[c] == next.parent[c] && now.parent[d] == next.parent[d]);
                }
            }
            if next.root_children == 0 {
                assert forall|c: int| 0 <= c < g.len() implies #[trigger] next.parent[c] != Some(
                    r as usize,
                ) by {
                    if c != v {
                        assert(now.parent[c] != Some(r as usize));
                    }
                }
            }
        }
    }
    assert(shaped(g, next, grown)) by {
        assert forall|c: int| 0 <= c < g.len() implies (#[trigger] next.parent[c] matches Some(p)
            ==> p < g.len() && next.num[p as int] is Some) by {
            if c != v {
                assert(now.parent[c] == next.parent[c]);
                assert(now.parent[c] matches Some(p) ==> p < g.len() && now.num[p as int] is Some);
            }
        }
    }
}

/// The edges out of the vertices numbered below `u` stay hemmed in when
/// the search comes back from the child `v`.
proof fn lemma_hem_merge(
    g: Seq<Vec<usize>>,
    first: Seq<Option<usize>>,
    middle: Seq<Option<usize>>,
    last: Seq<Option<usize>>,
    stack: Seq<int>,
    u: int,
    v: int,
    least_u: int,
    least_v: int,
    lower: int,
)
    requires
        numbered_on(first, middle),
        numbered_on(middle, last),
        forall|i: int| 0 <= i < stack.len() ==> middle[#[trigger] stack[i]] is Some,
        forall|i: int| 0 <= i < stack.len() ==> 0 <= #[trigger] stack[i] < middle.len(),
        fresh(first, middle, u),
        hemmed_below(g, first, middle, stack, u, least_u),
        hemmed_in(g, middle, last, stack.push(u), v, least_v),
        lower <= least_u,
        lower <= least_v,
    ensures
        hemmed_below(g, first, last, stack, u, lower),
{
    assert forall|x: int, y: int|
        fresh(first, last, x) && x != u && #[trigger] has_edge(g, x, y) implies fresh(
        first,
        last,
        y,
    ) || (on_stack(stack, y) && last[y].unwrap() >= lower) by {
        if middle[x] is Some {
            assert(fresh(first, middle, x));
            if !fresh(first, middle, y) {
                let i = choose|i: int| 0 <= i < stack.len() && #[trigger] stack[i] == y;
                assert(middle[stack[i]] is Some);
            }
        } else {
            assert(fresh(middle, last, x));
            if !fresh(middle, last, y) {
                lemma_on_longer_stack(stack, u, y);
                assert(stack.push(u)[stack.len() as int] == u);
                if y != u {
                    let i = choose|i: int| 0 <= i < stack.len() && #[trigger] stack[i] == y;
                    assert(middle[stack[i]] is Some);
                }
            } else {
                if first[y] is Some {
                    assert(middle[y] == first[y]);
                }
            }
        }
    }
}

/// Whatever is numbered below `u` can still be reached from `u` among the
/// vertices numbered below it when the search comes back from `v`.
proof fn lemma_joined_merge(
    g: Seq<Vec<usize>>,
    first: Seq<Option<usize>>,
    middle: Seq<Option<usize>>,
    last: Seq<Option<usize>>,
    u: int,
    v: int,
)
    requires
        numbered_on(first, middle),
        numbered_on(middle, last),
        0 <= u < g.len(),
        fresh(first, middle, u),
        has_edge(g, u, v),
        joined_all(g, first, middle, u),
        joined_all(g, middle, last, v),
    ensures
        joined_all(g, first, last, u),
{
    assert forall|x: int| fresh(first, last, x) implies #[trigger] joined_inside(
        g,
        first,
        last,
        u,
        x,
    ) by {
        if middle[x] is Some {
            assert(fresh(first, middle, x));
            assert(joined_inside(g, first, middle, u, x));
            let walk = choose|walk: Seq<int>| #[trigger]
                is_walk(g, walk) && walk[0] == u && walk[walk.len() - 1] == x && forall|k: int|
                    0 <= k < walk.len() ==> fresh(first, middle, #[trigger] walk[k]);
            assert forall|k: int| 0 <= k < walk.len() implies fresh(
                first,
                last,
                #[trigger] walk[k],
            ) by {
                assert(fresh(first, middle, walk[k]));
            }
            assert(is_walk(g, walk) && walk[0] == u && walk[walk.len() - 1] == x);
        } else {
            assert(fresh(middle, last, x));
            assert(joined_inside(g, middle, last, v, x));
            let below = choose|walk: Seq<int>| #[trigger]
                is_walk(g, walk) && walk[0] == v && walk[walk.len() - 1] == x && forall|k: int|
                    0 <= k < walk.len() ==> fresh(middle, last, #[trigger] walk[k]);
            let walk = seq![u] + below;
            assert forall|k: int| 0 <= k < walk.len() - 1 implies has_edge(
                g,
                #[trigger] walk[k],
                walk[k + 1],
            ) by {
                if k > 0 {
                    assert(has_edge(g, below[k - 1], below[k - 1 + 1]));
                }
            }
            assert forall|k: int| 0 <= k < walk.len() implies fresh(
                first,
                last,
                #[trigger] walk[k],
            ) by {
                if k > 0 {
                    assert(fresh(middle, last, below[k - 1]));
                    if first[below[k - 1]] is Some {
                        assert(middle[below[k - 1]] == first[below[k - 1]]);
                    }
                }
            }
            assert(is_walk(g, walk) && walk[0] == u && walk[walk.len() - 1] == x);
        }
    }
}

/// The lesser of what `u` has seen and what the search below its child
/// `v` has seen has been seen below `u`.
proof fn lemma_low_merge(
    g: Seq<Vec<usize>>,
    first: Seq<Option<usize>>,
    middle: Seq<Option<usize>>,
    last: Seq<Option<usize>>,
    stack: Seq<int>,
    u: int,
    v: int,
    least_u: int,
    least_v: int,
)
    requires
        numbered_on(first, middle),
        numbered_on(middle, last),
        forall|i: int| 0 <= i < stack.len() ==> middle[#[trigger] stack[i]] is Some,
        forall|i: int| 0 <= i < stack.len() ==> 0 <= #[trigger] stack[i] < middle.len(),
        fresh(first, middle, u),
        fresh(middle, last, v),
        last[u].unwrap() < last[v].unwrap(),
        low_is_seen(g, first, middle, stack, u, least_u),
        low_is_seen(g, middle, last, stack.push(u), v, least_v),
    ensures
        low_is_seen(g, first, last, stack, u, if least_u <= least_v {
            least_u
        } else {
            least_v
        }),
{
    let lower = if least_u <= least_v {
        least_u
    } else {
        least_v
    };
    let open = stack.push(u);
    if lower < last[u].unwrap() {
        if lower == least_u {
            let (x, i) = choose|x: int, i: int|
                fresh(first, middle, x) && 0 <= i < stack.len() && #[trigger] has_edge(
                    g,
                    x,
                    stack[i],
                ) && middle[stack[i]].unwrap() == least_u;
            assert(middle[stack[i]] is Some);
            assert(fresh(first, last, x) && has_edge(g, x, stack[i]) && last[stack[i]].unwrap()
                == lower);
        } else {
            let (x, i) = choose|x: int, i: int|
                fresh(middle, last, x) && 0 <= i < open.len() && #[trigger] has_edge(g, x, open[i])
                    && last[open[i]].unwrap() == least_v;
            assert(open[stack.len() as int] == u);
            assert(i < stack.len());
            assert(open[i] == stack[i]);
            if first[x] is Some {
                assert(middle[x] == first[x]);
            }
            assert(fresh(first, last, x) && has_edge(g, x, stack[i]) && last[stack[i]].unwrap()
                == lower);
        }
    }
}

/// What `u` has seen of the first vertices that it has an edge to still
/// holds when the search comes back from the next of them.
proof fn lemma_seen_merge(
    g: Seq<Vec<usize>>,
    first: Seq<Option<usize>>,
    middle: Seq<Option<usize>>,
    last: Seq<Option<usize>>,
    stack: Seq<int>,
    u: int,
    k: int,
    v: int,
    least_u: int,
    lower: int,
)
    requires
        numbered_on(first, middle),
        numbered_on(middle, last),
        forall|i: int| 0 <= i < stack.len() ==> middle[#[trigger] stack[i]] is Some,
        forall|i: int| 0 <= i < stack.len() ==> 0 <= #[trigger] stack[i] < middle.len(),
        0 <= k < g[u].len(),
        v == g[u][k],
        fresh(middle, last, v),
        seen_so_far(g, first, middle, stack, u, k, least_u),
        lower <= least_u,
    ensures
        seen_so_far(g, first, last, stack, u, k + 1, lower),
{
    assert forall|j: int| 0 <= j < k + 1 && j < g[u].len() implies seen_from(
        first,
        last,
        stack,
        (#[trigger] g[u][j]) as int,
        lower,
    ) by {
        let y = g[u][j] as int;
        if j < k {
            assert(seen_from(first, middle, stack, y, least_u));
            if !fresh(first, middle, y) {
                let i = choose|i: int| 0 <= i < stack.len() && #[trigger] stack[i] == y;
                assert(middle[stack[i]] is Some);
            }
        } else {
            if first[v] is Some {
                assert(middle[v] == first[v]);
            }
        }
    }
}

/// A vertex next to `r` that is joined only to numbered vertices stays
/// so when more vertices get numbers.
proof fn lemma_sealed_grows(
    g: Seq<Vec<usize>>,
    earlier: Seq<Option<usize>>,
    later: Seq<Option<usize>>,
    r: int,
)
    requires
        numbered_on(earlier, later),
        earlier.len() == g.len(),
        sealed(g, earlier, r),
    ensures
        sealed(g, later, r),
{
    let c = choose|c: int|
        c != r && #[trigger] has_edge(g, r, c) && forall|b: int| #[trigger]
            joined_without(g, r, c, b) ==> 0 <= b < g.len() && earlier[b] is Some;
    assert forall|b: int| #[trigger] joined_without(g, r, c, b) implies 0 <= b < g.len()
        && later[b] is Some by {
        assert(earlier[b] is Some);
    }
    assert(c != r && has_edge(g, r, c));
}

/// When the search comes back to the root from the first vertex that it
/// entered from there, that vertex is joined only to numbered vertices by
/// walks that do not pass the root.
proof fn lemma_first_child_sealed(
    g: Seq<Vec<usize>>,
    earlier: Seq<Option<usize>>,
    later: Seq<Option<usize>>,
    tree: Seq<int>,
    r: int,
    v: int,
    least: int,
)
    requires
        well_formed(g),
        stacked(g, later, tree, Seq::<int>::empty().push(r), r),
        hemmed_in(g, earlier, later, Seq::<int>::empty().push(r), v, least),
        low_is_seen(g, earlier, later, Seq::<int>::empty().push(r), v, least),
        fresh(earlier, later, v),
        has_edge(g, r, v),
        later[r].unwrap() < later[v].unwrap(),
        later.len() == g.len(),
    ensures
        sealed(g, later, r),
{
    let open = Seq::<int>::empty().push(r);
    assert(open[0] == r);
    if least < later[v].unwrap() {
        let (x, i) = choose|x: int, i: int|
            fresh(earlier, later, x) && 0 <= i < open.len() && #[trigger] has_edge(g, x, open[i])
                && later[open[i]].unwrap() == least;
        assert(i == 0);
    }
    assert(least >= later[r].unwrap());
    assert forall|b: int| #[trigger] joined_without(g, r, v, b) implies 0 <= b < g.len()
        && later[b] is Some by {
        lemma_child_is_cut_off(g, earlier, later, tree, Seq::empty(), r, r, v, least, b);
    }
    assert(v != r && has_edge(g, r, v));
}

/// A vertex other than the root is an articulation point if the search
/// below one of its children has seen no number less than its own.
proof fn lemma_flag_sound(
    g: Seq<Vec<usize>>,
    earlier: Seq<Option<usize>>,
    later: Seq<Option<usize>>,
    tree: Seq<int>,
    stack: Seq<int>,
    r: int,
    u: int,
    v: int,
    least: int,
)
    requires
        well_formed(g),
        symmetric(g),
        stacked(g, later, tree, stack.push(u), r),
        hemmed_in(g, earlier, later, stack.push(u), v, least),
        fresh(earlier, later, v),
        least >= later[u].unwrap(),
        stack.len() > 0,
        has_edge(g, u, v),
        earlier[stack[stack.len() - 1]] is Some,
        earlier[u] is Some,
    ensures
        is_articulation_point(g, u),
{
    let q = stack[stack.len() - 1];
    lemma_shorter_stack(g, later, tree, stack, r, u);
    assert(on_stack(stack, q));
    assert(q != u);
    assert(has_edge(g, v, u));
    assert(has_edge(g, u, q));
    let walk = seq![v, u, q];
    assert(is_walk(g, walk)) by {
        assert forall|j: int| 0 <= j < walk.len() - 1 implies has_edge(
            g,
            #[trigger] walk[j],
            walk[j + 1],
        ) by {}
    }
    assert(reaches(g, v, q)) by {
        assert(is_walk(g, walk) && walk[0] == v && walk[walk.len() - 1] == q);
    }
    if joined_without(g, u, v, q) {
        lemma_child_is_cut_off(g, earlier, later, tree, stack, r, u, v, least, q);
    }
    assert(v != u && q != u && reaches(g, v, q) && !joined_without(g, u, v, q));
}

/// Once `u` has been marked where the search below its child `v` calls
/// for it, and has taken over what that search has seen, all that holds
/// while a tree is searched holds with `v` left behind.
proof fn lemma_orderly_returned(
    g: Seq<Vec<usize>>,
    after: Marks,
    tree: Seq<int>,
    open: Seq<int>,
    r: int,
    u: int,
    v: int,
)
    requires
        orderly(g, after, tree, open, Set::<int>::empty().insert(v), r),
        0 <= u < g.len(),
        0 <= v < g.len(),
        after.num[u] is Some,
        after.num[v] is Some,
        after.low[u] is Some,
        after.low[v] is Some,
        after.parent[v] == Some(u as usize),
        after.low[v].unwrap() < after.num[u].unwrap() ==> joined_without(g, u, v, tree[v]),
        after.low[v].unwrap() >= after.num[u].unwrap() && u != r ==> is_articulation_point(g, u),
    ensures
        orderly(g, returned(after, u, v), tree, open, Set::empty(), r),
{
    let next = returned(after, u, v);
    let waiting = Set::<int>::empty().insert(v);
    let none = Set::<int>::empty();
    assert forall|c: int| 0 <= c < g.len() && next.num[c] is Some implies #[trigger] linked(
        g,
        next,
        tree,
        open,
        none,
        c,
    ) by {
        assert(linked(g, after, tree, open, waiting, c));
        if c != v {
            assert(!waiting.contains(c));
        }
    }
    assert forall|x: int|
        0 <= x < g.len() && next.num[x] is Some && x != r && #[trigger] tree[x] == x implies next.cut[x]
        || lone_child(next.parent, x) by {
        assert(after.cut[x] || lone_child(after.parent, x));
    }
    assert forall|x: int|
        0 <= x < g.len() && x != r && #[trigger] next.cut[x] implies is_articulation_point(g, x) by {
        if x != u {
            assert(after.cut[x]);
        } else if !after.cut[x] {
        }
    }
    assert(shaped(g, next, tree)) by {
        assert forall|x: int| 0 <= x < g.len() && #[trigger] next.cut[x] implies next.num[x] is Some by {
            if x != u {
                assert(after.cut[x]);
            }
        }
    }
    assert(counted(g, next, r));
}

/// What the search has left as it was up to the descent to `v` and from
/// there on, it has left as it was throughout.
proof fn lemma_kept_merge(
    g: Seq<Vec<usize>>,
    before: Marks,
    mid: Marks,
    after: Marks,
    tree: Seq<int>,
    grown: Seq<int>,
    regrown: Seq<int>,
    r: int,
    u: int,
    v: int,
)
    requires
        kept(g, before, mid, tree, grown, r),
        kept(g, descending(mid, r, u, v), after, grown, regrown, r),
        0 <= u < g.len(),
        0 <= v < g.len(),
        fresh(before.num, mid.num, u),
        mid.num[v] is None,
        after.num[v] is Some,
        mid.num.len() == g.len(),
        mid.parent.len() == g.len(),
        after.low.len() == g.len(),
        after.cut.len() == g.len(),
    ensures
        kept(g, before, returned(after, u, v), tree, regrown, r),
{
    let down = descending(mid, r, u, v);
    let next = returned(after, u, v);
    assert forall|x: int| 0 <= x < g.len() && (#[trigger] before.num[x]) is Some implies next.num[x]
        == before.num[x] && next.low[x] == before.low[x] && next.cut[x] == before.cut[x]
        && next.parent[x] == before.parent[x] by {
        assert(mid.num[x] == before.num[x]);
        assert(mid.low[x] == before.low[x] && mid.cut[x] == before.cut[x] && mid.parent[x]
            == before.parent[x]);
        assert(down.num[x] is Some);
        assert(after.num[x] == down.num[x]);
        assert(after.low[x] == down.low[x] && after.cut[x] == down.cut[x] && after.parent[x]
            == down.parent[x]);
        assert(x != u && x != v);
        assert(down.parent[x] == mid.parent[x]);
    }
    assert forall|x: int| 0 <= x < g.len() && (#[trigger] next.num[x]) is None implies next.parent[x]
        == before.parent[x] by {
        assert(after.num[x] is None);
        assert(after.parent[x] == down.parent[x]);
        assert(down.num[x] is None);
        assert(mid.num[x] is None);
        assert(x != v) by {
            if x == v {
                assert(after.num[v] is Some);
            }
        }
        assert(mid.parent[x] == before.parent[x]);
    }
    assert forall|x: int| 0 <= x < g.len() && !fresh(before.num, next.num, x) implies #[trigger] regrown[x]
        == tree[x] by {
        if before.num[x] is Some {
            assert(mid.num[x] == before.num[x]);
        }
        assert(!fresh(before.num, mid.num, x));
        assert(!fresh(down.num, after.num, x));
        assert(grown[x] == tree[x]);
    }
    assert forall|x: int| fresh(before.num, next.num, x) implies #[trigger] regrown[x] == r
        && next.num[x].unwrap() >= before.counter by {
        if mid.num[x] is Some {
            assert(fresh(before.num, mid.num, x));
            assert(down.num[x] is Some);
            assert(!fresh(down.num, after.num, x));
            assert(grown[x] == r);
        } else {
            assert(fresh(down.num, after.num, x));
        }
    }
}

/// Coming back to `u` from a vertex that the search entered from there
/// keeps what holds of the look along the edges of `u`.
proof fn lemma_return(
    g: Seq<Vec<usize>>,
    before: Marks,
    mid: Marks,
    after: Marks,
    tree: Seq<int>,
    grown: Seq<int>,
    regrown: Seq<int>,
    stack: Seq<int>,
    r: int,
    u: int,
    k: int,
    v: int,
)
    requires
        well_formed(g),
        symmetric(g),
        scanning(g, before, mid, tree, grown, stack, r, u, k),
        0 <= k < g[u].len(),
        v == g[u][k],
        mid.num[v] is None,
        searched(g, descending(mid, r, u, v), after, grown, regrown, stack.push(u), r, v),
    ensures
        scanning(g, before, returned(after, u, v), tree, regrown, stack, r, u, k + 1),
{
    let down = descending(mid, r, u, v);
    let next = returned(after, u, v);
    let open = stack.push(u);
    let least_u = mid.low[u].unwrap() as int;
    let least_v = after.low[v].unwrap() as int;
    let lower = next.low[u].unwrap() as int;
    assert(g[u][k] < g.len());
    assert(has_edge(g, u, v));
    lemma_shorter_stack(g, mid.num, grown, stack, r, u);
    assert(down.num == mid.num);
    assert(numbered_on(before.num, mid.num));
    assert(numbered_on(mid.num, after.num));
    assert(fresh(before.num, mid.num, u));
    assert(fresh(mid.num, after.num, v));
    assert(mid.num[u] is Some);
    assert(after.num[u] == mid.num[u] && after.low[u] == mid.low[u] && after.parent[u]
        == down.parent[u]);
    assert(after.num[u].unwrap() < after.num[v].unwrap());
    assert(lower <= least_u && lower <= least_v);
    assert(after.parent[v] == Some(u as usize));
    assert(regrown[v] == r);
    // The marks are in order.
    if least_v < after.num[u].unwrap() {
        lemma_child_escapes(g, mid.num, after.num, regrown, stack, r, u, v, least_v);
    } else if u != r {
        assert(on_stack(stack, stack[stack.len() - 1]));
        lemma_flag_sound(g, mid.num, after.num, regrown, stack, r, u, v, least_v);
    }
    lemma_orderly_returned(g, after, regrown, open, r, u, v);
    lemma_kept_merge(g, before, mid, after, tree, grown, regrown, r, u, v);
    // What the search below `u` has seen.
    lemma_hem_merge(g, before.num, mid.num, after.num, stack, u, v, least_u, least_v, lower);
    lemma_seen_merge(g, before.num, mid.num, after.num, stack, u, k, v, least_u, lower);
    lemma_joined_merge(g, before.num, mid.num, after.num, u, v);
    lemma_low_merge(g, before.num, mid.num, after.num, stack, u, v, least_u, least_v);
    if u == r && next.root_children >= 1 {
        if mid.root_children >= 1 {
            lemma_sealed_grows(g, mid.num, after.num, r);
        } else {
            assert(stack.len() == 0);
            assert(open =~= Seq::<int>::empty().push(r));
            lemma_first_child_sealed(g, mid.num, after.num, regrown, r, v, least_v);
        }
    }
}

/// When the search has looked along all edges of `u`, it leaves what a
/// search leaves.
proof fn lemma_finish(
    g: Seq<Vec<usize>>,
    before: Marks,
    now: Marks,
    tree: Seq<int>,
    grown: Seq<int>,
    stack: Seq<int>,
    r: int,
    u: int,
    k: int,
)
    requires
        well_formed(g),
        scanning(g, before, now, tree, grown, stack, r, u, k),
        k >= g[u].len(),
    ensures
        searched(g, before, now, tree, grown, stack, r, u),
{
    let open = stack.push(u);
    let none = Set::<int>::empty();
    let waiting = Set::<int>::empty().insert(u);
    let least = now.low[u].unwrap() as int;
    lemma_shorter_stack(g, now.num, grown, stack, r, u);
    assert forall|c: int| 0 <= c < g.len() && now.num[c] is Some implies #[trigger] linked(
        g,
        now,
        grown,
        stack,
        waiting,
        c,
    ) by {
        assert(linked(g, now, grown, open, none, c));
        lemma_on_longer_stack(stack, u, c);
    }
    assert(hemmed_in(g, before.num, now.num, stack, u, least)) by {
        assert forall|x: int, y: int|
            fresh(before.num, now.num, x) && #[trigger] has_edge(g, x, y) implies fresh(
            before.num,
            now.num,
            y,
        ) || (on_stack(stack, y) && (now.num[y].unwrap() >= least || (x == u && y
            == stack[stack.len() - 1]))) by {
            if x == u {
                let j = choose|j: int| 0 <= j < g[u].len() && #[trigger] g[u][j] == y;
                assert(seen_from(before.num, now.num, stack, g[u][j] as int, least));
            }
        }
    }
    assert(left_behind(g, now.num, grown, stack)) by {
        assert forall|x: int, y: int|
            0 <= x < g.len() && now.num[x] is Some && !on_stack(stack, x) && #[trigger] has_edge(
                g,
                x,
                y,
            ) implies now.num[y] is Some && grown[y] == grown[x] by {
            if x == u {
                let j = choose|j: int| 0 <= j < g[u].len() && #[trigger] g[u][j] == y;
                assert(seen_from(before.num, now.num, stack, g[u][j] as int, least));
                if !fresh(before.num, now.num, y) {
                    let i = choose|i: int| 0 <= i < stack.len() && #[trigger] stack[i] == y;
                    assert(now.num[stack[i]] is Some && grown[stack[i]] == r);
                }
            } else {
                lemma_on_longer_stack(stack, u, x);
            }
        }
    }
}

/// A vertex without a number can be made the root of a new tree.
proof fn lemma_start_tree(g: Seq<Vec<usize>>, m: Marks, tree: Seq<int>, r: int)
    requires
        settled(g, m, tree),
        0 <= r < g.len(),
        m.num[r] is None,
        0 <= m.counter <= usize::MAX,
    ensures
        orderly(g, Marks { root_children: 0, ..m }, tree, Seq::empty(), Set::empty(), r),
        entering(g, Marks { root_children: 0, ..m }, Seq::empty(), r, r),
{
    let start = Marks { root_children: 0, ..m };
    let none = Set::<int>::empty();
    let bare = Seq::<int>::empty();
    assert forall|c: int| 0 <= c < g.len() && start.num[c] is Some implies #[trigger] linked(
        g,
        start,
        tree,
        bare,
        none,
        c,
    ) by {
        assert(linked(g, m, tree, bare, none, c));
    }
    assert forall|c: int| 0 <= c < g.len() implies #[trigger] start.parent[c] != Some(
        r as usize,
    ) by {
        assert(m.parent[c] matches Some(p) ==> p < g.len() && m.num[p as int] is Some);
    }
    assert(left_behind(g, start.num, tree, bare));
}

/// When the search of a tree has come to its end and the root has been
/// marked if more than one vertex was entered from it, all searches that
/// were started have come to their end.
proof fn lemma_end_tree(
    g: Seq<Vec<usize>>,
    start: Marks,
    after: Marks,
    tree: Seq<int>,
    grown: Seq<int>,
    r: int,
)
    requires
        entering(g, start, Seq::empty(), r, r),
        searched(g, start, after, tree, grown, Seq::empty(), r, r),
        forall|x: int| 0 <= x < g.len() && (#[trigger] start.num[x]) is None ==> start.parent[x] is None,
    ensures
        settled(g, Marks { cut: after.cut.update(r, after.root_children > 1), ..after }, grown),
{
    let done = Marks { cut: after.cut.update(r, after.root_children > 1), ..after };
    let none = Set::<int>::empty();
    let waiting = Set::<int>::empty().insert(r);
    let bare = Seq::<int>::empty();
    assert(after.num[r] is Some);
    assert(after.parent[r] is None);
    assert(linked(g, after, grown, bare, waiting, r));
    assert(grown[r] == r);
    assert forall|x: int| !on_stack(bare, x) by {}
    assert forall|c: int| 0 <= c < g.len() && done.num[c] is Some implies #[trigger] linked(
        g,
        done,
        grown,
        bare,
        none,
        c,
    ) by {
        assert(linked(g, after, grown, bare, waiting, c));
        if c != r {
            assert(!waiting.contains(c));
        }
    }
    assert forall|x: int|
        0 <= x < g.len() && done.num[x] is Some && #[trigger] grown[x] == x implies done.cut[x]
        || lone_child(done.parent, x) by {
        if x != r {
            assert(after.cut[x] || lone_child(after.parent, x));
        }
    }
    assert forall|x: int| 0 <= x < g.len() && #[trigger] done.cut[x] implies is_articulation_point(
        g,
        x,
    ) by {
        if x != r {
            assert(after.cut[x]);
        }
    }
    assert forall|x: int, y: int|
        0 <= x < g.len() && done.num[x] is Some && #[trigger] has_edge(g, x, y) implies done.num[y] is Some
        && grown[y] == grown[x] by {
        assert(!on_stack(bare, x));
    }
    assert(shaped(g, done, grown)) by {
        assert forall|x: int| 0 <= x < g.len() && #[trigger] done.cut[x] implies done.num[x] is Some by {
            if x != r {
                assert(after.cut[x]);
            }
        }
    }
    assert forall|x: int| 0 <= x < g.len() && (#[trigger] done.num[x]) is None implies done.parent[x] is None by {
        assert(after.parent[x] == start.parent[x]);
        assert(start.num[x] is None);
    }
}

/// A search for articulation points, with what it has noted.
#[derive(Clone, Debug, Default)]
pub struct ArticulationPointAndBridge {
    dfs_num: Vec<Option<usize>>,
    dfs_low: Vec<Option<usize>>,
    articulation_vertex: Vec<bool>,
    dfs_parent: Vec<Option<usize>>,
    dfs_counter: usize,
    dfs_root: usize,
    root_children: usize,
}

impl View for ArticulationPointAndBridge {
    type V = Marks;

    closed spec fn view(&self) -> Marks {
        Marks {
            num: self.dfs_num@,
            low: self.dfs_low@,
            cut: self.articulation_vertex@,
            parent: self.dfs_parent@,
            counter: self.dfs_counter as int,
            root_children: self.root_children as int,
        }
    }
}

impl ArticulationPointAndBridge {
    /// The vertex that the search started at.
    pub closed spec fn root(&self) -> int {
        self.dfs_root as int
    }

    /// What holds of the marks while `n` vertices are searched: every
    /// list has an entry for each vertex, and a vertex that has a number
    /// has a least number seen.
    pub open spec fn searching(&self, n: int) -> bool {
        &&& self@.num.len() == n
        &&& self@.low.len() == n
        &&& self@.cut.len() == n
        &&& self@.parent.len() == n
        &&& forall|x: int| 0 <= x < n && self@.num[x] is Some ==> #[trigger] self@.low[x] is Some
    }

    /// A search that has noted nothing.
    pub fn new() -> (search: Self)
        ensures
            search@ == blank(0, 0, 0),
    {
        let search = Self {
            dfs_num: Vec::new(),
            dfs_low: Vec::new(),
            articulation_vertex: Vec::new(),
            dfs_parent: Vec::new(),
            dfs_counter: 0,
            dfs_root: 0,
            root_children: 0,
        };
        assert(search@.num =~= blank(0, 0, 0).num);
        assert(search@.low =~= blank(0, 0, 0).low);
        assert(search@.cut =~= blank(0, 0, 0).cut);
        assert(search@.parent =~= blank(0, 0, 0).parent);
        search
    }

    /// Enters `u` and searches on from there.
    fn dfs(
        &mut self,
        al: &[Vec<usize>],
        u: usize,
        Ghost(fuel): Ghost<nat>,
        Ghost(tree): Ghost<Seq<int>>,
        Ghost(stack): Ghost<Seq<int>>,
        Ghost(sym): Ghost<bool>,
    ) -> (grown: Ghost<Seq<int>>)
        requires
            well_formed(al@),
            sym ==> symmetric(al@) && orderly(
                al@,
                old(self)@,
                tree,
                stack,
                Set::empty(),
                old(self).root(),
            ) && entering(al@, old(self)@, stack, old(self).root(), u as int),
            old(self).searching(al.len() as int),
            u < al.len(),
            old(self)@.num[u as int] is None,
            unset_count(old(self)@.num, al.len() as int) - 1 <= fuel,
            old(self)@.counter + unset_count(old(self)@.num, al.len() as int) <= usize::MAX,
            old(self)@.root_children + unset_count(old(self)@.num, al.len() as int) <= al.len() + 1,
        ensures
            final(self)@ == entered(al@, old(self)@, old(self).root(), u as int, fuel),
            final(self).root() == old(self).root(),
            final(self).searching(al.len() as int),
            final(self)@.num[u as int] is Some,
            forall|x: int|
                0 <= x < al.len() && old(self)@.num[x] is Some ==> #[trigger] final(self)@.num[x]
                    == old(self)@.num[x],
            unset_count(final(self)@.num, al.len() as int) < unset_count(
                old(self)@.num,
                al.len() as int,
            ),
            final(self)@.counter + unset_count(final(self)@.num, al.len() as int) == old(
                self,
            )@.counter + unset_count(old(self)@.num, al.len() as int),
            final(self)@.root_children + unset_count(final(self)@.num, al.len() as int)
                <= al.len(),
            sym ==> searched(
                al@,
                old(self)@,
                final(self)@,
                tree,
                grown@,
                stack,
                old(self).root(),
                u as int,
            ),
        decreases fuel,
    {
        let ghost n = al.len() as int;
        let ghost r = self.root();
        let ghost mut grown = tree.update(u as int, r);
        proof {
            lemma_unset_count_after_mark(self.dfs_num@, u as int, self.dfs_counter);
            lemma_unset_count_nonnegative(self.dfs_num@.update(u as int, Some(self.dfs_counter)), n);
        }
        self.dfs_num.set(u, Some(self.dfs_counter));
        self.dfs_counter += 1;
        let own = self.dfs_num[u];
        self.dfs_low.set(u, own);
        proof {
            assert(self@ == numbered(old(self)@, u as int));
            if sym {
                lemma_begin(al@, old(self)@, tree, stack, r, u as int);
            }
        }
        let mut k: usize = 0;
        while k < al[u].len()
            invariant
                well_formed(al@),
                n == al.len(),
                u < al.len(),
                0 <= k <= al[u as int].len(),
                self.searching(n),
                self.root() == old(self).root(),
                self@.num[u as int] is Some,
                scanned(al@, self@, self.root(), u as int, k as int, fuel) == entered(
                    al@,
                    old(self)@,
                    old(self).root(),
                    u as int,
                    fuel,
                ),
                forall|x: int|
                    0 <= x < n && old(self)@.num[x] is Some ==> #[trigger] self@.num[x] == old(
                        self,
                    )@.num[x],
                0 <= unset_count(self@.num, n) <= fuel,
                unset_count(self@.num, n) < unset_count(old(self)@.num, n),
                self@.counter + unset_count(self@.num, n) == old(self)@.counter + unset_count(
                    old(self)@.num,
                    n,
                ),
                self@.counter + unset_count(self@.num, n) <= usize::MAX,
                self@.root_children + unset_count(self@.num, n) <= n,
                r == old(self).root(),
                sym ==> symmetric(al@) && scanning(
                    al@,
                    old(self)@,
                    self@,
                    tree,
                    grown,
                    stack,
                    r,
                    u as int,
                    k as int,
                ),
            decreases al[u as int].len() - k,
        {
            let v: usize = al[u][k];
            let ghost now = self@;
            proof {
                assert(al@[u as int][k as int] < al.len());
            }
            if self.dfs_num[v].is_none() {
                proof {
                    lemma_unset_count_after_mark(self.dfs_num@, v as int, 0);
                    lemma_unset_count_nonnegative(self.dfs_num@.update(v as int, Some(0usize)), n);
                }
                self.dfs_parent.set(v, Some(u));
                if u == self.dfs_root {
                    self.root_children += 1;
                }
                proof {
                    assert(self@ == descending(now, r, u as int, v as int));
                    if sym {
                        lemma_descend(
                            al@,
                            old(self)@,
                            now,
                            tree,
                            grown,
                            stack,
                            r,
                            u as int,
                            k as int,
                            v as int,
                        );
                    }
                }
                let regrown = self.dfs(
                    al,
                    v,
                    Ghost((fuel - 1) as nat),
                    Ghost(grown),
                    Ghost(stack.push(u as int)),
                    Ghost(sym),
                );
                let ghost after = self@;
                let low_below: usize = self.dfs_low[v].unwrap();
                let num_here: usize = self.dfs_num[u].unwrap();
                if low_below >= num_here {
                    self.articulation_vertex.set(u, true);
                }
                let low_here: usize = self.dfs_low[u].unwrap();
                let least: usize = if low_here <= low_below {
                    low_here
                } else {
                    low_below
                };
                self.dfs_low.set(u, Some(least));
                proof {
                    assert(self@ == returned(after, u as int, v as int));
                    if sym {
                        lemma_return(
                            al@,
                            old(self)@,
                            now,
                            after,
                            tree,
                            grown,
                            regrown@,
                            stack,
                            r,
                            u as int,
                            k as int,
                            v as int,
                        );
                        grown = regrown@;
                    }
                }
            } else {
                let from_parent = match self.dfs_parent[u] {
                    Some(p) => p == v,
                    None => false,
                };
                if !from_parent {
                    let cur_low: usize = self.dfs_low[u].unwrap();
                    let v_low: usize = self.dfs_num[v].unwrap();
                    let least: usize = if cur_low <= v_low {
                        cur_low
                    } else {
                        v_low
                    };
                    self.dfs_low.set(u, Some(least));
                }
                proof {
                    assert(self@ == glanced(now, u as int, v as int));
                    if sym {
                        lemma_glance(
                            al@,
                            old(self)@,
                            now,
                            tree,
                            grown,
                            stack,
                            r,
                            u as int,
                            k as int,
                            v as int,
                        );
                    }
                }
            }
            proof {
                lemma_unset_count_nonnegative(self@.num, n);
            }
            k += 1;
        }
        proof {
            if sym {
                lemma_finish(al@, old(self)@, self@, tree, grown, stack, r, u as int, k as int);
            }
        }
        Ghost(grown)
    }

    /// Searches the graph and lists, in order, the vertices that the
    /// search marks. In a graph whose edges go both ways these are the
    /// articulation points: the vertices without which two others that
    /// are joined by a walk are joined by none.
    pub fn articulation_point_and_bridge(&mut self, al: &[Vec<usize>]) -> (res: Vec<usize>)
        requires
            well_formed(al@),
            old(self)@.counter + al.len() <= usize::MAX,
        ensures
            final(self)@ == swept(
                al@,
                blank(al@.len(), old(self)@.counter, old(self)@.root_children),
                0,
            ),
            forall|i: int, j: int| 0 <= i < j < res.len() ==> res[i] < res[j],
            forall|x: usize|
                res@.contains(x) <==> x < final(self)@.cut.len() && final(self)@.cut[x as int],
            symmetric(al@) ==> forall|x: usize|
                res@.contains(x) <==> x < al.len() && is_articulation_point(al@, x as int),
    {
        let n: usize = al.len();
        let ghost sym = symmetric(al@);
        let ghost mut tree = Seq::new(al@.len(), |i: int| 0int);
        self.dfs_num = vec![None; n];
        self.dfs_low = vec![None; n];
        self.articulation_vertex = vec![false; n];
        self.dfs_parent = vec![None; n];
        proof {
            let start = blank(al@.len(), old(self)@.counter, old(self)@.root_children);
            assert(self@.num =~= start.num);
            assert(self@.low =~= start.low);
            assert(self@.cut =~= start.cut);
            assert(self@.parent =~= start.parent);
            lemma_unset_count_at_most(self@.num, n as int);
            lemma_unset_count_nonnegative(self@.num, n as int);
            if sym {
                assert(settled(al@, self@, tree));
            }
        }
        let mut u: usize = 0;
        while u < n
            invariant
                well_formed(al@),
                n == al.len(),
                0 <= u <= n,
                sym == symmetric(al@),
                sym ==> settled(al@, self@, tree),
                forall|x: int| 0 <= x < u ==> (#[trigger] self@.num[x]) is Some,
                self.searching(n as int),
                swept(al@, self@, u as int) == swept(
                    al@,
                    blank(al@.len(), old(self)@.counter, old(self)@.root_children),
                    0,
                ),
                0 <= unset_count(self@.num, n as int) <= n,
                self@.counter + unset_count(self@.num, n as int) <= usize::MAX,
            decreases n - u,
        {
            if self.dfs_num[u].is_none() {
                let ghost marks = self@;
                self.dfs_root = u;
                self.root_children = 0;
                let ghost start = self@;
                proof {
                    assert(start == (Marks { root_children: 0, ..marks }));
                    if sym {
                        lemma_start_tree(al@, marks, tree, u as int);
                    }
                }
                let grown = self.dfs(
                    al,
                    u,
                    Ghost(al@.len()),
                    Ghost(tree),
                    Ghost(Seq::empty()),
                    Ghost(sym),
                );
                let ghost after = self@;
                let many = self.root_children > 1;
                self.articulation_vertex.set(u, many);
                proof {
                    lemma_unset_count_nonnegative(self@.num, n as int);
                    assert(self@ == (Marks {
                        cut: after.cut.update(u as int, after.root_children > 1),
                        ..after
                    }));
                    if sym {
                        lemma_end_tree(al@, start, after, tree, grown@, u as int);
                        tree = grown@;
                    }
                }
            }
            u += 1;
        }
        proof {
            if sym {
                assert forall|x: int| 0 <= x < n implies (self@.cut[x] <==> is_articulation_point(
                    al@,
                    x,
                )) by {
                    lemma_marks_are_articulation_points(al@, self@, tree, x);
                }
            }
        }
        let ghost marks = self@;
        let mut res: Vec<usize> = Vec::new();
        let mut i: usize = 0;
        while i < self.articulation_vertex.len()
            invariant
                self@ == marks,
                0 <= i <= self.articulation_vertex.len(),
                forall|a: int, b: int| 0 <= a < b < res.len() ==> res[a] < res[b],
                forall|a: int| 0 <= a < res.len() ==> res[a] < i,
                forall|x: usize| res@.contains(x) <==> x < i && self@.cut[x as int],
            decreases self.articulation_vertex.len() - i,
        {
            let ghost before = res@;
            if self.articulation_vertex[i] {
                res.push(i);
                proof {
                    assert(res@[before.len() as int] == i);
                    assert forall|x: usize| res@.contains(x) <==> x < i + 1 && self@.cut[x as int] by {
                        if res@.contains(x) {
                            let a = choose|a: int| 0 <= a < res.len() && res[a] == x;
                            if a < before.len() {
                                assert(before[a] == x);
                                assert(before.contains(x));
                            }
                        }
                        if x < i && self@.cut[x as int] {
                            assert(before.contains(x));
                            let a = choose|a: int| 0 <= a < before.len() && before[a] == x;
                            assert(res@[a] == x);
                        }
                    }
                }
            }
            i += 1;
        }
        res
    }
}

} // verus!
