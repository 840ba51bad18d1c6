//! Matchings between the two sides of a graph by Kuhn's algorithm: every
//! vertex of the left side in turn looks, depth first, for a vertex of the
//! right side that is free or whose partner can move on to another.

use crate::graphs::graph_matching::{has_edge, MatchingError};
use crate::summation::{lemma_sum_monotone, lemma_sum_point_update, lemma_sum_prefix, sum_to};
use std::collections::HashMap;
use vstd::prelude::*;
use vstd::relations::injective_on;
use vstd::seq_lib::seq_to_set_is_finite;
use vstd::set_lib::{lemma_len_subset, lemma_map_size, lemma_set_disjoint_lens};

verus! {

broadcast use vstd::std_specs::hash::group_hash_axioms;

/// What a search from the left vertex `x` leaves: whether it found a
/// partner for `x`, the partners of the right vertices, and the left
/// vertices that have been tried. `fuel` bounds how deep the search may
/// go.
pub open spec fn search(
    al: Seq<&Vec<usize>>,
    mt: Map<usize, i32>,
    visited: Map<usize, bool>,
    x: usize,
    fuel: nat,
) -> (bool, Map<usize, i32>, Map<usize, bool>)
    decreases fuel, al[x as int].len() + 1,
{
    if visited.contains_key(x) && !visited[x] {
        scan(al, mt, visited.insert(x, true), x, 0, fuel)
    } else {
        (false, mt, visited)
    }
}

/// What the search from `x` leaves once it has come to the `k`-th of the
/// vertices that `x` has an edge to: it takes the first of them that is a
/// right vertex and is free or whose partner finds another.
pub open spec fn scan(
    al: Seq<&Vec<usize>>,
    mt: Map<usize, i32>,
    visited: Map<usize, bool>,
    x: usize,
    k: int,
    fuel: nat,
) -> (bool, Map<usize, i32>, Map<usize, bool>)
    decreases fuel, al[x as int].len() - k,
{
    if k < 0 || k >= al[x as int].len() {
        (false, mt, visited)
    } else {
        let v = al[x as int][k];
        if !mt.contains_key(v) {
            scan(al, mt, visited, x, k + 1, fuel)
        } else if mt[v] == -1 {
            (true, mt.insert(v, x as i32), visited)
        } else if fuel == 0 {
            (false, mt, visited)
        } else {
            let below = search(al, mt, visited, mt[v] as usize, (fuel - 1) as nat);
            if below.0 {
                (true, below.1.insert(v, x as i32), below.2)
            } else {
                scan(al, below.1, below.2, x, k + 1, fuel)
            }
        }
    }
}

/// No left vertex has been tried.
pub open spec fn untried(u: Seq<usize>) -> Map<usize, bool> {
    Map::new(|x: usize| u.contains(x), |x: usize| false)
}

/// No right vertex has a partner.
pub open spec fn unmatched(v: Seq<usize>) -> Map<usize, i32> {
    Map::new(|y: usize| v.contains(y), |y: usize| -1i32)
}

/// The partners of the right vertices after the first `i` vertices of `u`
/// have searched, each with no left vertex tried at its start.
pub open spec fn matched_after(al: Seq<&Vec<usize>>, u: Seq<usize>, v: Seq<usize>, i: int) -> Map<
    usize,
    i32,
>
    decreases i,
{
    if i <= 0 {
        unmatched(v)
    } else {
        search(al, matched_after(al, u, v, i - 1), untried(u), u[i - 1], u.len()).1
    }
}

/// One if the `i`-th left vertex has not been tried, else zero.
pub open spec fn open_term(visited: Map<usize, bool>, u: Seq<usize>, i: int) -> int {
    if visited[u[i]] {
        0
    } else {
        1
    }
}

/// How many entries of `u` have not been tried.
pub open spec fn open_count(visited: Map<usize, bool>, u: Seq<usize>) -> int {
    sum_to(|i: int| open_term(visited, u, i), u.len() as int)
}

/// `later` holds the same vertices as `earlier`, and whatever has been
/// tried in `earlier` has been tried in `later`.
pub open spec fn tried_more(earlier: Map<usize, bool>, later: Map<usize, bool>) -> bool {
    &&& later.dom() == earlier.dom()
    &&& forall|x: usize| #[trigger] earlier.contains_key(x) && earlier[x] ==> later[x]
}

/// Trying more vertices leaves no more untried.
proof fn lemma_open_count_monotone(earlier: Map<usize, bool>, later: Map<usize, bool>, u: Seq<usize>)
    requires
        tried_more(earlier, later),
        forall|i: int| 0 <= i < u.len() ==> earlier.contains_key(#[trigger] u[i]),
    ensures
        0 <= open_count(later, u) <= open_count(earlier, u),
{
    assert forall|i: int| 0 <= i < u.len() implies #[trigger] open_term(later, u, i) <= open_term(
        earlier,
        u,
        i,
    ) by {
        assert(earlier.contains_key(u[i]));
    }
    lemma_sum_monotone(
        |i: int| open_term(later, u, i),
        |i: int| open_term(earlier, u, i),
        u.len() as int,
    );
    lemma_sum_prefix(|i: int| open_term(later, u, i), 0, u.len() as int);
}

/// Trying an untried vertex leaves fewer untried.
proof fn lemma_open_count_after_trying(visited: Map<usize, bool>, u: Seq<usize>, x: usize)
    requires
        visited.contains_key(x),
        !visited[x],
        visited.dom() =~= Set::new(|y: usize| u.contains(y)),
    ensures
        0 <= open_count(visited.insert(x, true), u) < open_count(visited, u),
        tried_more(visited, visited.insert(x, true)),
{
    let after = visited.insert(x, true);
    assert(u.contains(x));
    let at = choose|i: int| 0 <= i < u.len() && u[i] == x;
    let between = |i: int|
        if i == at {
            0int
        } else {
            open_term(visited, u, i)
        };
    lemma_sum_point_update(|i: int| open_term(visited, u, i), between, u.len() as int, at);
    assert forall|i: int| 0 <= i < u.len() implies #[trigger] open_term(after, u, i) <= between(
        i,
    ) by {}
    lemma_sum_monotone(|i: int| open_term(after, u, i), between, u.len() as int);
    lemma_sum_prefix(|i: int| open_term(after, u, i), 0, u.len() as int);
    assert(after.dom() =~= visited.dom());
}

/// Every partner is a left vertex with an edge to the right vertex that
/// it is the partner of.
pub open spec fn along_edges(al: Seq<&Vec<usize>>, mt: Map<usize, i32>) -> bool {
    forall|y: usize| #[trigger]
        mt.contains_key(y) && mt[y] != -1 ==> 0 <= mt[y] < al.len() && has_edge(
            al,
            mt[y] as int,
            y as int,
        )
}

/// No two right vertices outside `holes` have the same partner.
pub open spec fn one_to_one(mt: Map<usize, i32>, holes: Set<usize>) -> bool {
    forall|y: usize, z: usize|
        #![trigger mt.contains_key(y), mt.contains_key(z)]
        mt.contains_key(y) && mt.contains_key(z) && y != z && !holes.contains(y)
            && !holes.contains(z) && mt[y] != -1 ==> mt[y] != mt[z]
}

/// What a search from `x` may start from: no two right vertices outside
/// `holes` have the same partner, none of them has `x`, and the partner
/// of every right vertex in `holes` has been tried or is `x`.
pub open spec fn rerouting(
    mt: Map<usize, i32>,
    visited: Map<usize, bool>,
    holes: Set<usize>,
    x: usize,
) -> bool {
    &&& one_to_one(mt, holes)
    &&& forall|y: usize| #[trigger] mt.contains_key(y) && !holes.contains(y) ==> mt[y] != x
    &&& forall|h: usize| #[trigger]
        holes.contains(h) ==> mt.contains_key(h) && mt[h] != -1 && (mt[h] == x || visited[mt[h] as usize])
}

/// What a search from `x` leaves of the partners outside `holes`: no two
/// right vertices there have the same partner, those in `holes` keep
/// theirs, and every partner outside `holes` is `x` or was a partner
/// outside `holes` before.
pub open spec fn rerouted(
    before: Map<usize, i32>,
    after: Map<usize, i32>,
    holes: Set<usize>,
    x: usize,
) -> bool {
    &&& one_to_one(after, holes)
    &&& forall|h: usize| #[trigger] holes.contains(h) ==> after[h] == before[h]
    &&& forall|y: usize| #[trigger]
        after.contains_key(y) && !holes.contains(y) ==> after[y] == x || exists|z: usize| #[trigger]
            before.contains_key(z) && !holes.contains(z) && before[z] == after[y]
}

/// Every right vertex next to a left vertex of `frozen` has a partner in
/// `frozen`.
pub open spec fn closed(al: Seq<&Vec<usize>>, mt: Map<usize, i32>, frozen: Set<usize>) -> bool {
    forall|l: usize, k: int|
        #![trigger frozen.contains(l), al[l as int][k]]
        frozen.contains(l) && 0 <= k < al[l as int].len() && mt.contains_key(al[l as int][k])
            ==> mt[al[l as int][k]] != -1 && frozen.contains(mt[al[l as int][k]] as usize)
}

/// Every right vertex next to a left vertex that has been tried in `after`
/// but not in `before` has a partner that has been tried in `after`.
pub open spec fn dead_end(
    al: Seq<&Vec<usize>>,
    mt: Map<usize, i32>,
    before: Map<usize, bool>,
    after: Map<usize, bool>,
) -> bool {
    forall|l: usize, k: int|
        #![trigger after[l], al[l as int][k]]
        after.contains_key(l) && after[l] && !before[l] && 0 <= k < al[l as int].len()
            && mt.contains_key(al[l as int][k]) ==> mt[al[l as int][k]] != -1 && after.contains_key(
            mt[al[l as int][k]] as usize,
        ) && after[mt[al[l as int][k]] as usize]
}

/// The left vertex `l` is the partner of a right vertex outside `holes`.
pub open spec fn has_partner(mt: Map<usize, i32>, holes: Set<usize>, l: usize) -> bool {
    exists|r: usize| #[trigger] mt.contains_key(r) && !holes.contains(r) && mt[r] == l
}

/// No more entries are untried than there are.
proof fn lemma_open_count_at_most(visited: Map<usize, bool>, u: Seq<usize>, k: int)
    requires
        0 <= k,
    ensures
        0 <= sum_to(|i: int| open_term(visited, u, i), k) <= k,
    decreases k,
{
    if k > 0 {
        lemma_open_count_at_most(visited, u, k - 1);
    }
}

/// The right vertices that have a partner.
pub open spec fn partnered(mt: Map<usize, i32>) -> Set<usize> {
    Set::new(|r: usize| mt.contains_key(r) && mt[r] != -1)
}

/// `m` gives every right vertex of `v` a partner among the left vertices
/// `u` that has an edge to it, or none, and no left vertex is the partner
/// of two.
pub open spec fn is_matching(
    al: Seq<&Vec<usize>>,
    u: Seq<usize>,
    v: Seq<usize>,
    m: Map<usize, i32>,
) -> bool {
    &&& m.dom() =~= v.to_set()
    &&& along_edges(al, m)
    &&& forall|y: usize| #[trigger]
        m.contains_key(y) ==> m[y] == -1 || (0 <= m[y] && u.contains(m[y] as usize))
    &&& one_to_one(m, Set::empty())
}

/// A finite set that is mapped one to one into another finite set has no
/// more elements than that.
proof fn lemma_injection_bound(from: Set<usize>, into: Set<usize>, f: spec_fn(usize) -> usize)
    requires
        from.finite(),
        into.finite(),
        injective_on(f, from),
        forall|a: usize| from.contains(a) ==> into.contains(#[trigger] f(a)),
    ensures
        from.len() <= into.len(),
{
    let image = from.map(f);
    lemma_map_size(from, image, f);
    assert(image.subset_of(into)) by {
        assert forall|b: usize| image.contains(b) implies into.contains(b) by {
            let a = choose|a: usize| from.contains(a) && f(a) == b;
            assert(into.contains(f(a)));
        }
    }
    lemma_len_subset(image, into);
}

/// A matching has as many right vertices with a partner as left vertices
/// that are one.
proof fn lemma_two_sides(m: Map<usize, i32>, lefts: Set<usize>)
    requires
        m.dom().finite(),
        one_to_one(m, Set::empty()),
        forall|y: usize| #[trigger] m.contains_key(y) ==> m[y] >= -1,
        forall|l: usize| lefts.contains(l) <==> has_partner(m, Set::empty(), l),
    ensures
        lefts.finite(),
        partnered(m).finite(),
        lefts.len() == partnered(m).len(),
{
    let rights = partnered(m);
    assert(rights.subset_of(m.dom()));
    lemma_len_subset(rights, m.dom());
    let f = |r: usize| m[r] as usize;
    assert(injective_on(f, rights)) by {
        assert forall|a: usize, b: usize|
            rights.contains(a) && rights.contains(b) && #[trigger] f(a) == #[trigger] f(
                b,
            ) implies a == b by {
            assert(m.contains_key(a) && m.contains_key(b));
            if a != b {
                assert(m[a] != m[b]);
            }
        }
    }
    assert(rights.map(f) =~= lefts) by {
        assert forall|l: usize| rights.map(f).contains(l) implies lefts.contains(l) by {
            let r = choose|r: usize| rights.contains(r) && f(r) == l;
            assert(m.contains_key(r) && !Set::<usize>::empty().contains(r) && m[r] == l);
        }
        assert forall|l: usize| lefts.contains(l) implies rights.map(f).contains(l) by {
            let r = choose|r: usize| #[trigger]
                m.contains_key(r) && !Set::<usize>::empty().contains(r) && m[r] == l;
            assert(rights.contains(r) && f(r) == l);
        }
    }
    lemma_map_size(rights, lefts, f);
}

/// What the failed searches leave behind shows that no matching has more
/// partners: the left vertices of `frozen` have only as many right
/// vertices next to them as are the partners of those of them that did
/// not fail.
proof fn lemma_no_larger_matching(
    al: Seq<&Vec<usize>>,
    u: Seq<usize>,
    v: Seq<usize>,
    mt: Map<usize, i32>,
    other: Map<usize, i32>,
    frozen: Set<usize>,
    failed: Set<usize>,
)
    requires
        is_matching(al, u, v, mt),
        is_matching(al, u, v, other),
        closed(al, mt, frozen),
        forall|l: usize| frozen.contains(l) ==> u.contains(l),
        forall|l: usize| failed.contains(l) ==> frozen.contains(l),
        forall|l: usize| failed.contains(l) ==> !has_partner(mt, Set::empty(), l),
        forall|j: int|
            0 <= j < u.len() ==> failed.contains(#[trigger] u[j]) || has_partner(
                mt,
                Set::empty(),
                u[j],
            ),
    ensures
        partnered(other).len() <= partnered(mt).len(),
{
    let none = Set::<usize>::empty();
    let all = u.to_set();
    seq_to_set_is_finite(u);
    seq_to_set_is_finite(v);
    let mine = Set::new(|l: usize| has_partner(mt, none, l));
    let theirs = Set::new(|l: usize| has_partner(other, none, l));
    lemma_two_sides(mt, mine);
    lemma_two_sides(other, theirs);
    // The left vertices with a partner in the other matching, inside and
    // outside of what is frozen.
    let inside = theirs.intersect(frozen);
    let outside = theirs.difference(frozen);
    assert(theirs =~= inside + outside);
    assert(inside.disjoint(outside));
    assert(inside.subset_of(theirs) && outside.subset_of(theirs));
    lemma_len_subset(inside, theirs);
    lemma_len_subset(outside, theirs);
    lemma_set_disjoint_lens(inside, outside);
    let kept = frozen.difference(failed);
    let rest = all.difference(frozen);
    let hopeful = all.difference(failed);
    assert(kept.subset_of(all) && rest.subset_of(all) && hopeful.subset_of(all));
    lemma_len_subset(kept, all);
    lemma_len_subset(rest, all);
    lemma_len_subset(hopeful, all);
    assert(hopeful =~= kept + rest);
    assert(kept.disjoint(rest));
    lemma_set_disjoint_lens(kept, rest);
    // Outside, the other matching has no more than there are left vertices.
    assert(outside.subset_of(rest)) by {
        assert forall|l: usize| outside.contains(l) implies rest.contains(l) by {
            let r = choose|r: usize| #[trigger]
                other.contains_key(r) && !none.contains(r) && other[r] == l;
            assert(u.contains(other[r] as usize));
        }
    }
    lemma_len_subset(outside, rest);
    // Inside, each of its left vertices leads, by way of its partner there
    // and the partner of that one here, to a frozen vertex of its own that
    // did not fail.
    let there = |l: usize|
        choose|r: usize| #[trigger] other.contains_key(r) && !none.contains(r) && other[r] == l;
    let back = |l: usize| mt[there(l)] as usize;
    assert forall|l: usize| inside.contains(l) implies other.contains_key(there(l)) && other[there(
        l,
    )] == l && mt.contains_key(there(l)) && mt[there(l)] != -1 && frozen.contains(back(l))
        && kept.contains(#[trigger] back(l)) by {
        let r = there(l);
        assert(has_partner(other, none, l));
        assert(other.contains_key(r) && other[r] == l);
        assert(mt.contains_key(r));
        assert(has_edge(al, other[r] as int, r as int));
        let k = choose|k: int| 0 <= k < al[l as int].len() && #[trigger] al[l as int][k] == r;
        assert(frozen.contains(l) && al[l as int][k] == r);
        assert(mt[r] != -1 && frozen.contains(mt[r] as usize));
        if failed.contains(back(l)) {
            assert(mt.contains_key(r) && !none.contains(r) && mt[r] == back(l));
            assert(has_partner(mt, none, back(l)));
        }
    }
    assert(injective_on(back, inside)) by {
        assert forall|a: usize, b: usize|
            inside.contains(a) && inside.contains(b) && #[trigger] back(a) == #[trigger] back(
                b,
            ) implies a == b by {
            assert(kept.contains(back(a)) && kept.contains(back(b)));
            let r = there(a);
            let t = there(b);
            assert(mt.contains_key(r) && mt.contains_key(t));
            if r != t {
                assert(mt[r] != mt[t]);
            }
        }
    }
    lemma_injection_bound(inside, kept, back);
    // Here, every left vertex that did not fail has a partner.
    assert(hopeful.subset_of(mine)) by {
        assert forall|l: usize| hopeful.contains(l) implies mine.contains(l) by {
            let j = choose|j: int| 0 <= j < u.len() && u[j] == l;
            assert(failed.contains(u[j]) || has_partner(mt, none, u[j]));
        }
    }
    lemma_len_subset(hopeful, mine);
}

/// Searches from the left vertex `x` for a right vertex that is free or
/// whose partner can move on, and makes it the partner of `x`.
fn dfs(
    x: usize,
    al: &Vec<&Vec<usize>>,
    mt: &mut HashMap<usize, i32>,
    visited: &mut HashMap<usize, bool>,
    Ghost(u): Ghost<Seq<usize>>,
    Ghost(fuel): Ghost<nat>,
    Ghost(holes): Ghost<Set<usize>>,
    Ghost(frozen): Ghost<Set<usize>>,
    Ghost(clean): Ghost<bool>,
) -> (found: bool)
    requires
        al.len() <= i32::MAX,
        along_edges(al@, old(mt)@),
        clean ==> closed(al@, old(mt)@, frozen),
        clean && old(visited)@.contains_key(x) && !old(visited)@[x] ==> rerouting(
            old(mt)@,
            old(visited)@,
            holes,
            x,
        ),
        forall|i: int| 0 <= i < u.len() ==> (#[trigger] u[i]) < al.len(),
        old(visited)@.dom() =~= Set::new(|y: usize| u.contains(y)),
        forall|y: usize| #[trigger]
            old(mt)@.contains_key(y) ==> old(mt)@[y] == -1 || (0 <= old(mt)@[y] && u.contains(
                old(mt)@[y] as usize,
            )),
        open_count(old(visited)@, u) <= fuel,
    ensures
        (found, final(mt)@, final(visited)@) == search(al@, old(mt)@, old(visited)@, x, fuel),
        final(mt)@.dom() == old(mt)@.dom(),
        tried_more(old(visited)@, final(visited)@),
        forall|y: usize| #[trigger]
            final(mt)@.contains_key(y) ==> final(mt)@[y] == -1 || (0 <= final(mt)@[y] && u.contains(
                final(mt)@[y] as usize,
            )),
        !found ==> final(mt)@ == old(mt)@,
        along_edges(al@, final(mt)@),
        clean && found ==> rerouted(old(mt)@, final(mt)@, holes, x),
        final(visited)@.contains_key(x) ==> final(visited)@[x],
        !found ==> dead_end(al@, old(mt)@, old(visited)@, final(visited)@),
        clean ==> closed(al@, final(mt)@, frozen),
        clean && frozen.contains(x) ==> !found,
        clean && found ==> has_partner(final(mt)@, holes, x),
        clean && found ==> forall|l: usize| #[trigger]
            has_partner(old(mt)@, holes, l) ==> has_partner(final(mt)@, holes, l),
    decreases fuel,
{
    let state = visited.get(&x);
    let untried_yet = match state {
        Some(seen) => !*seen,
        None => false,
    };
    if !untried_yet {
        return false;
    }
    proof {
        lemma_open_count_after_trying(visited@, u, x);
        assert(u.contains(x));
    }
    visited.insert(x, true);
    let ghost marked = visited@;
    let list: &Vec<usize> = al[x];
    let mut k: usize = 0;
    while k < list.len()
        invariant
            al.len() <= i32::MAX,
            x < al.len(),
            u.contains(x),
            list == al[x as int],
            0 <= k <= list.len(),
            forall|i: int| 0 <= i < u.len() ==> (#[trigger] u[i]) < al.len(),
            visited@.dom() =~= Set::new(|y: usize| u.contains(y)),
            forall|y: usize| #[trigger]
                mt@.contains_key(y) ==> mt@[y] == -1 || (0 <= mt@[y] && u.contains(
                    mt@[y] as usize,
                )),
            0 <= open_count(visited@, u) < fuel,
            scan(al@, mt@, visited@, x, k as int, fuel) == search(
                al@,
                old(mt)@,
                old(visited)@,
                x,
                fuel,
            ),
            mt@ == old(mt)@,
            tried_more(old(visited)@, visited@),
            along_edges(al@, mt@),
            visited@.contains_key(x) && visited@[x],
            clean ==> rerouting(old(mt)@, old(visited)@, holes, x),
            clean ==> closed(al@, mt@, frozen),
            marked == old(visited)@.insert(x, true),
            tried_more(marked, visited@),
            dead_end(al@, mt@, marked, visited@),
            forall|j: int|
                0 <= j < k && mt@.contains_key(#[trigger] al@[x as int][j]) ==> mt@[al@[x as int][j]]
                    != -1 && visited@.contains_key(mt@[al@[x as int][j]] as usize)
                    && visited@[mt@[al@[x as int][j]] as usize],
        decreases list.len() - k,
    {
        let v: usize = list[k];
        let entry = mt.get(&v);
        let partner: Option<i32> = match entry {
            Some(matched) => Some(*matched),
            None => None,
        };
        match partner {
            Some(matched) => {
                let ghost tried = visited@;
                let taken = if matched == -1 {
                    true
                } else {
                    proof {
                        assert(mt@.contains_key(v));
                        let next = matched as usize;
                        if clean && visited@.contains_key(next) && !visited@[next] {
                            assert(!holes.contains(v)) by {
                                if holes.contains(v) {
                                    assert(old(visited)@.contains_key(next) || mt@[v] == x);
                                }
                            }
                            assert(rerouting(mt@, visited@, holes.insert(v), next)) by {
                                assert forall|y: usize| #[trigger]
                                    mt@.contains_key(y) && !holes.insert(v).contains(
                                        y,
                                    ) implies mt@[y] != next by {
                                    assert(mt@.contains_key(v) && mt@.contains_key(y));
                                }
                                assert forall|h: usize| #[trigger]
                                    holes.insert(v).contains(h) implies mt@.contains_key(h)
                                    && mt@[h] != -1 && (mt@[h] == next || visited@[mt@[h] as usize]) by {
                                    if holes.contains(h) {
                                        if mt@[h] != x {
                                            assert(old(visited)@[mt@[h] as usize]);
                                            assert(u.contains(mt@[h] as usize));
                                            assert(old(visited)@.contains_key(mt@[h] as usize));
                                        }
                                    }
                                }
                            }
                        }
                    }
                    dfs(
                        matched as usize,
                        al,
                        mt,
                        visited,
                        Ghost(u),
                        Ghost((fuel - 1) as nat),
                        Ghost(holes.insert(v)),
                        Ghost(frozen),
                        Ghost(clean),
                    )
                };
                let ghost below = mt@;
                if taken {
                    mt.insert(v, x as i32);
                    proof {
                        assert(mt@.dom() =~= old(mt)@.dom());
                        assert((x as i32) as usize == x);
                        assert(has_edge(al@, x as int, v as int)) by {
                            assert(al@[x as int][k as int] == v);
                        }
                        assert(along_edges(al@, mt@)) by {
                            assert forall|y: usize| #[trigger]
                                mt@.contains_key(y) && mt@[y] != -1 implies 0 <= mt@[y] < al.len()
                                && has_edge(al@, mt@[y] as int, y as int) by {
                                if y != v {
                                    assert(below.contains_key(y));
                                }
                            }
                        }
                        if clean {
                            let start = old(mt)@;
                            // A search from a frozen vertex finds nothing,
                            // and none next to one is given a new partner.
                            assert(al@[x as int][k as int] == v);
                            assert(!frozen.contains(x));
                            assert(closed(al@, mt@, frozen)) by {
                                assert forall|l: usize, j: int|
                                    #![trigger frozen.contains(l), al@[l as int][j]]
                                    frozen.contains(l) && 0 <= j < al@[l as int].len()
                                        && mt@.contains_key(al@[l as int][j]) implies mt@[al@[l as int][j]]
                                    != -1 && frozen.contains(mt@[al@[l as int][j]] as usize) by {
                                    let r = al@[l as int][j];
                                    assert(start.contains_key(r));
                                    assert(start[r] != -1 && frozen.contains(start[r] as usize));
                                    if r != v {
                                        assert(below.contains_key(r));
                                        assert(below[r] != -1 && frozen.contains(below[r] as usize));
                                    }
                                }
                            }
                            assert(!holes.contains(v)) by {
                                if holes.contains(v) {
                                    if matched != -1 {
                                        // The partner of a hole has been tried,
                                        // and a search from it finds nothing.
                                        assert(tried[matched as usize] || matched == x);
                                    }
                                }
                            }
                            assert(start.contains_key(v) && !holes.contains(v));
                            assert(start[v] != x);
                            let wider = holes.insert(v);
                            assert forall|y: usize| #[trigger]
                                below.contains_key(y) && !wider.contains(y) implies below[y]
                                != x by {
                                if matched != -1 {
                                    assert(rerouted(start, below, wider, matched as usize));
                                    if below[y] != matched {
                                        let z = choose|z: usize| #[trigger]
                                            start.contains_key(z) && !wider.contains(z) && start[z]
                                                == below[y];
                                        assert(start[z] != x);
                                    }
                                } else {
                                    assert(start.contains_key(y));
                                }
                            }
                            assert(one_to_one(mt@, holes)) by {
                                assert forall|y: usize, z: usize|
                                    #![trigger mt@.contains_key(y), mt@.contains_key(z)]
                                    mt@.contains_key(y) && mt@.contains_key(z) && y != z
                                        && !holes.contains(y) && !holes.contains(z) && mt@[y]
                                        != -1 implies mt@[y] != mt@[z] by {
                                    if y != v && z != v {
                                        assert(below.contains_key(y) && below.contains_key(z));
                                        assert(one_to_one(below, wider));
                                    } else if y == v {
                                        assert(below.contains_key(z) && !wider.contains(z));
                                    } else {
                                        assert(below.contains_key(y) && !wider.contains(y));
                                    }
                                }
                            }
                            assert forall|h: usize| #[trigger] holes.contains(h) implies mt@[h]
                                == start[h] by {
                                if matched != -1 {
                                    assert(wider.contains(h));
                                }
                            }
                            assert(has_partner(mt@, holes, x)) by {
                                assert(mt@.contains_key(v) && !holes.contains(v) && mt@[v] == x);
                            }
                            assert forall|l: usize| #[trigger]
                                has_partner(start, holes, l) implies has_partner(mt@, holes, l) by {
                                let r = choose|r: usize| #[trigger]
                                    start.contains_key(r) && !holes.contains(r) && start[r] == l;
                                if r == v {
                                    assert(has_partner(below, wider, matched as usize));
                                    let t = choose|t: usize| #[trigger]
                                        below.contains_key(t) && !wider.contains(t) && below[t]
                                            == matched as usize;
                                    assert(mt@.contains_key(t) && !holes.contains(t) && mt@[t] == l);
                                } else if matched != -1 {
                                    assert(start.contains_key(r) && !wider.contains(r) && start[r]
                                        == l);
                                    assert(has_partner(start, wider, l));
                                    assert(has_partner(below, wider, l));
                                    let t = choose|t: usize| #[trigger]
                                        below.contains_key(t) && !wider.contains(t) && below[t]
                                            == l;
                                    assert(mt@.contains_key(t) && !holes.contains(t) && mt@[t] == l);
                                } else {
                                    assert(mt@.contains_key(r) && !holes.contains(r) && mt@[r] == l);
                                }
                            }
                            assert forall|y: usize| #[trigger]
                                mt@.contains_key(y) && !holes.contains(y) implies mt@[y] == x
                                || exists|z: usize| #[trigger]
                                    start.contains_key(z) && !holes.contains(z) && start[z]
                                        == mt@[y] by {
                                if y != v {
                                    assert(below.contains_key(y) && !wider.contains(y));
                                    if matched != -1 {
                                        if below[y] == matched {
                                            assert(start.contains_key(v) && !holes.contains(v)
                                                && start[v] == mt@[y]);
                                        } else {
                                            let z = choose|z: usize| #[trigger]
                                                start.contains_key(z) && !wider.contains(z)
                                                    && start[z] == below[y];
                                            assert(start.contains_key(z) && !holes.contains(z)
                                                && start[z] == mt@[y]);
                                        }
                                    } else {
                                        assert(start.contains_key(y) && !holes.contains(y)
                                            && start[y] == mt@[y]);
                                    }
                                }
                            }
                        }
                    }
                    return true;
                }
                proof {
                    assert(al@[x as int][k as int] == v);
                    assert(matched != -1);
                    assert(u.contains(matched as usize));
                    assert(visited@.contains_key(matched as usize));
                    assert(tried_more(marked, visited@)) by {
                        assert forall|y: usize| #[trigger]
                            marked.contains_key(y) && marked[y] implies visited@[y] by {
                            assert(tried.contains_key(y) && tried[y]);
                        }
                    }
                    assert(dead_end(al@, mt@, marked, visited@)) by {
                        assert forall|l: usize, j: int|
                            #![trigger visited@[l], al@[l as int][j]]
                            visited@.contains_key(l) && visited@[l] && !marked[l] && 0 <= j
                                < al@[l as int].len() && mt@.contains_key(
                                al@[l as int][j],
                            ) implies mt@[al@[l as int][j]] != -1 && visited@.contains_key(
                            mt@[al@[l as int][j]] as usize,
                        ) && visited@[mt@[al@[l as int][j]] as usize] by {
                            let r = al@[l as int][j];
                            if tried[l] {
                                assert(tried.contains_key(l));
                                assert(mt@[r] != -1 && tried.contains_key(mt@[r] as usize)
                                    && tried[mt@[r] as usize]);
                            }
                        }
                    }
                    assert forall|j: int|
                        0 <= j < k + 1 && mt@.contains_key(
                            #[trigger] al@[x as int][j],
                        ) implies mt@[al@[x as int][j]] != -1 && visited@.contains_key(
                        mt@[al@[x as int][j]] as usize,
                    ) && visited@[mt@[al@[x as int][j]] as usize] by {
                        if j < k {
                            let r = al@[x as int][j];
                            assert(tried.contains_key(mt@[r] as usize) && tried[mt@[r] as usize]);
                        }
                    }
                    lemma_open_count_monotone(tried, visited@, u);
                    assert(tried_more(old(visited)@, visited@)) by {
                        assert forall|y: usize| #[trigger]
                            old(visited)@.contains_key(y) && old(visited)@[y] implies visited@[y] by {
                            assert(tried.contains_key(y) && tried[y]);
                        }
                    }
                }
            },
            None => {
                proof {
                    assert(al@[x as int][k as int] == v);
                    assert(!mt@.contains_key(v));
                }
            },
        }
        k += 1;
    }
    proof {
        assert(dead_end(al@, mt@, old(visited)@, visited@)) by {
            assert forall|l: usize, j: int|
                #![trigger visited@[l], al@[l as int][j]]
                visited@.contains_key(l) && visited@[l] && !old(visited)@[l] && 0 <= j
                    < al@[l as int].len() && mt@.contains_key(
                    al@[l as int][j],
                ) implies mt@[al@[l as int][j]] != -1 && visited@.contains_key(
                mt@[al@[l as int][j]] as usize,
            ) && visited@[mt@[al@[l as int][j]] as usize] by {
                if l != x {
                    assert(!marked[l]);
                }
            }
        }
    }
    false
}

/// A matching between the left vertices `u` and the right vertices `v` of
/// the graph `al`: for every right vertex its partner, or `-1` if it has
/// none. Every left vertex in turn takes the first of its neighbours that
/// is free or whose partner finds another in the same way. If no left
/// vertex is listed twice, no left vertex is the partner of two, and no
/// such matching gives more right vertices a partner. Refused if the two
/// sides do not hold as many vertices as the graph has.
pub fn kuhn_algorithm(al: &Vec<&Vec<usize>>, u: Vec<usize>, v: Vec<usize>) -> (result: Result<
    HashMap<usize, i32>,
    MatchingError,
>)
    requires
        al.len() <= i32::MAX,
        u.len() + v.len() <= usize::MAX,
        al.len() == u.len() + v.len() ==> forall|i: int|
            0 <= i < u.len() ==> (#[trigger] u[i]) < al.len(),
    ensures
        al.len() != u.len() + v.len() ==> (result matches Err(e) && e
            == MatchingError::SizeMismatch),
        al.len() == u.len() + v.len() ==> (result matches Ok(mt) && mt@ == matched_after(
            al@,
            u@,
            v@,
            u.len() as int,
        )),
        result matches Ok(mt) ==> mt@.dom() =~= v@.to_set(),
        result matches Ok(mt) ==> along_edges(al@, mt@),
        result matches Ok(mt) ==> forall|y: usize| #[trigger]
            mt@.contains_key(y) ==> mt@[y] == -1 || (0 <= mt@[y] && u@.contains(mt@[y] as usize)),
        result matches Ok(mt) ==> u@.no_duplicates() ==> is_matching(al@, u@, v@, mt@),
        result matches Ok(mt) ==> u@.no_duplicates() ==> forall|other: Map<usize, i32>| #[trigger]
            is_matching(al@, u@, v@, other) ==> partnered(other).len() <= partnered(mt@).len(),
{
    if al.len() != u.len() + v.len() {
        return Err(MatchingError::SizeMismatch);
    }
    let mut mt: HashMap<usize, i32> = HashMap::new();
    let mut visited: HashMap<usize, bool> = HashMap::new();
    let mut i: usize = 0;
    while i < v.len()
        invariant
            0 <= i <= v.len(),
            mt@ =~= unmatched(v@.take(i as int)),
        decreases v.len() - i,
    {
        mt.insert(v[i], -1);
        proof {
            let head = v@.take(i as int);
            let longer = v@.take(i + 1);
            assert forall|y: usize| longer.contains(y) <==> head.contains(y) || y == v[i as int] by {
                if longer.contains(y) {
                    let j = choose|j: int| 0 <= j < longer.len() && longer[j] == y;
                    if j < i {
                        assert(head[j] == y);
                    }
                }
                if head.contains(y) {
                    let j = choose|j: int| 0 <= j < head.len() && head[j] == y;
                    assert(longer[j] == y);
                }
                assert(longer[i as int] == v[i as int]);
            }
            assert(mt@ =~= unmatched(longer));
        }
        i += 1;
    }
    proof {
        assert(v@.take(v.len() as int) =~= v@);
    }
    let ghost mut frozen = Set::<usize>::empty();
    let ghost mut failed = Set::<usize>::empty();
    let mut round: usize = 0;
    while round < u.len()
        invariant
            0 <= round <= u.len(),
            u@.no_duplicates() ==> closed(al@, mt@, frozen),
            forall|l: usize| frozen.contains(l) ==> u@.contains(l),
            forall|l: usize| failed.contains(l) ==> frozen.contains(l),
            forall|l: usize|
                failed.contains(l) ==> exists|j: int| 0 <= j < round && #[trigger] u[j] == l,
            u@.no_duplicates() ==> forall|l: usize|
                failed.contains(l) ==> !has_partner(mt@, Set::empty(), l),
            u@.no_duplicates() ==> forall|j: int|
                0 <= j < round ==> failed.contains(#[trigger] u[j]) || has_partner(
                    mt@,
                    Set::empty(),
                    u[j],
                ),
            al.len() <= i32::MAX,
            forall|i: int| 0 <= i < u.len() ==> (#[trigger] u[i]) < al.len(),
            mt@ == matched_after(al@, u@, v@, round as int),
            mt@.dom() =~= Set::new(|y: usize| v@.contains(y)),
            along_edges(al@, mt@),
            u@.no_duplicates() ==> one_to_one(mt@, Set::empty()),
            u@.no_duplicates() ==> forall|y: usize| #[trigger]
                mt@.contains_key(y) ==> mt@[y] == -1 || exists|j: int|
                    0 <= j < round && #[trigger] u[j] == mt@[y],
            round == 0 ==> visited@ =~= Map::<usize, bool>::empty(),
            round > 0 ==> visited@.dom() =~= Set::new(|y: usize| u@.contains(y)),
            forall|y: usize| #[trigger]
                mt@.contains_key(y) ==> mt@[y] == -1 || (0 <= mt@[y] && u@.contains(
                    mt@[y] as usize,
                )),
        decreases u.len() - round,
    {
        let mut j: usize = 0;
        while j < u.len()
            invariant
                0 <= j <= u.len(),
                forall|y: usize|
                    visited@.contains_key(y) ==> #[trigger] u@.contains(y),
                forall|k: int| 0 <= k < j ==> visited@.contains_key(#[trigger] u[k]) && !visited@[u[k]],
                forall|y: usize| #[trigger]
                    visited@.contains_key(y) && u@.take(j as int).contains(y) ==> !visited@[y],
                round > 0 ==> visited@.dom() =~= Set::new(|y: usize| u@.contains(y)),
            decreases u.len() - j,
        {
            let ghost before = visited@;
            visited.insert(u[j], false);
            proof {
                let head = u@.take(j as int);
                let longer = u@.take(j + 1);
                assert forall|y: usize| #[trigger]
                    visited@.contains_key(y) && longer.contains(y) implies !visited@[y] by {
                    if y != u[j as int] {
                        let k = choose|k: int| 0 <= k < longer.len() && longer[k] == y;
                        assert(head[k] == y);
                        assert(before.contains_key(y) && head.contains(y));
                    }
                }
                assert forall|y: usize| visited@.contains_key(y) implies #[trigger] u@.contains(
                    y,
                ) by {
                    if y == u[j as int] {
                        assert(u@[j as int] == y);
                    }
                }
            }
            j += 1;
        }
        proof {
            assert(u@.take(u.len() as int) =~= u@);
            assert(visited@ =~= untried(u@)) by {
                assert forall|y: usize| u@.contains(y) implies visited@.contains_key(y) by {
                    let k = choose|k: int| 0 <= k < u.len() && u[k] == y;
                    assert(visited@.contains_key(u[k]));
                }
            }
            lemma_open_count_at_most(visited@, u@, u.len() as int);
        }
        let ghost before = mt@;
        let ghost fresh = visited@;
        let ghost none = Set::<usize>::empty();
        proof {
            if u@.no_duplicates() {
                assert forall|y: usize| #[trigger]
                    mt@.contains_key(y) && !none.contains(y) implies mt@[y] != u[round as int] by {
                    if mt@[y] == u[round as int] {
                        let j = choose|j: int| 0 <= j < round && #[trigger] u[j] == mt@[y];
                        assert(u@[j] == u@[round as int]);
                    }
                }
            }
        }
        let found = dfs(
            u[round],
            al,
            &mut mt,
            &mut visited,
            Ghost(u@),
            Ghost(u@.len()),
            Ghost(none),
            Ghost(frozen),
            Ghost(u@.no_duplicates()),
        );
        proof {
            let x = u[round as int];
            let tried = Set::new(|l: usize| visited@.contains_key(l) && visited@[l]);
            let wider = if found {
                frozen
            } else {
                frozen + tried
            };
            let more = if found {
                failed
            } else {
                failed.insert(x)
            };
            assert(u@.contains(x)) by {
                assert(u@[round as int] == x);
            }
            assert(visited@.contains_key(x) && visited@[x]);
            assert forall|l: usize| wider.contains(l) implies u@.contains(l) by {
                if !frozen.contains(l) {
                    assert(visited@.contains_key(l));
                }
            }
            assert forall|l: usize| more.contains(l) implies exists|j: int|
                0 <= j < round + 1 && #[trigger] u[j] == l by {
                if failed.contains(l) {
                    let j = choose|j: int| 0 <= j < round && #[trigger] u[j] == l;
                    assert(u[j] == l);
                } else {
                    assert(u[round as int] == l);
                }
            }
            if u@.no_duplicates() {
                assert forall|l: usize| failed.contains(l) implies l != x by {
                    let j = choose|j: int| 0 <= j < round && #[trigger] u[j] == l;
                    assert(u@[j] == l);
                }
                if found {
                    assert forall|l: usize| failed.contains(l) implies !has_partner(
                        mt@,
                        none,
                        l,
                    ) by {
                        if has_partner(mt@, none, l) {
                            let r = choose|r: usize| #[trigger]
                                mt@.contains_key(r) && !none.contains(r) && mt@[r] == l;
                            let z = choose|z: usize| #[trigger]
                                before.contains_key(z) && !none.contains(z) && before[z] == mt@[r];
                            assert(has_partner(before, none, l));
                        }
                    }
                    assert forall|j: int| 0 <= j < round + 1 implies failed.contains(
                        #[trigger] u[j],
                    ) || has_partner(mt@, none, u[j]) by {
                        if j < round {
                            if !failed.contains(u[j]) {
                                assert(has_partner(before, none, u[j]));
                            }
                        }
                    }
                } else {
                    assert(!has_partner(mt@, none, x)) by {
                        if has_partner(mt@, none, x) {
                            let r = choose|r: usize| #[trigger]
                                mt@.contains_key(r) && !none.contains(r) && mt@[r] == x;
                            assert(mt@[r] != x);
                        }
                    }
                    assert(closed(al@, mt@, wider)) by {
                        assert forall|l: usize, k: int|
                            #![trigger wider.contains(l), al@[l as int][k]]
                            wider.contains(l) && 0 <= k < al@[l as int].len() && mt@.contains_key(
                                al@[l as int][k],
                            ) implies mt@[al@[l as int][k]] != -1 && wider.contains(
                            mt@[al@[l as int][k]] as usize,
                        ) by {
                            let r = al@[l as int][k];
                            if frozen.contains(l) {
                                assert(mt@[r] != -1 && frozen.contains(mt@[r] as usize));
                            } else {
                                assert(visited@.contains_key(l) && visited@[l]);
                                assert(fresh.contains_key(l) && !fresh[l]);
                                assert(mt@[r] != -1 && visited@.contains_key(mt@[r] as usize)
                                    && visited@[mt@[r] as usize]);
                                assert(tried.contains(mt@[r] as usize));
                            }
                        }
                    }
                    assert forall|j: int| 0 <= j < round + 1 implies more.contains(
                        #[trigger] u[j],
                    ) || has_partner(mt@, none, u[j]) by {
                        if j < round {
                            assert(failed.contains(u[j]) || has_partner(before, none, u[j]));
                        }
                    }
                }
            }
            frozen = wider;
            failed = more;
            if u@.no_duplicates() {
                assert forall|y: usize| #[trigger] mt@.contains_key(y) implies mt@[y] == -1
                    || exists|j: int| 0 <= j < round + 1 && #[trigger] u[j] == mt@[y] by {
                    if found {
                        assert(!none.contains(y));
                        if mt@[y] != u[round as int] {
                            let z = choose|z: usize| #[trigger]
                                before.contains_key(z) && !none.contains(z) && before[z] == mt@[y];
                            if before[z] != -1 {
                                let j = choose|j: int| 0 <= j < round && #[trigger] u[j] == before[z];
                                assert(u[j] == mt@[y]);
                            }
                        } else {
                            assert(u[round as int] == mt@[y]);
                        }
                    } else {
                        assert(before.contains_key(y));
                        if before[y] != -1 {
                            let j = choose|j: int| 0 <= j < round && #[trigger] u[j] == before[y];
                            assert(u[j] == mt@[y]);
                        }
                    }
                }
            }
        }
        round += 1;
    }
    proof {
        assert(mt@.dom() =~= v@.to_set());
        if u@.no_duplicates() {
            assert(is_matching(al@, u@, v@, mt@));
            assert forall|other: Map<usize, i32>| #[trigger]
                is_matching(al@, u@, v@, other) implies partnered(other).len() <= partnered(
                mt@,
            ).len() by {
                lemma_no_larger_matching(al@, u@, v@, mt@, other, frozen, failed);
            }
        }
    }
    Ok(mt)
}

} // verus!
