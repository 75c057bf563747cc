//! The mathematical model of the problem: a matrix of leg weights, routes
//! that leave the start node, and closed tours through every node.

use vstd::prelude::*;
use vstd::arithmetic::power2::pow2;
use crate::mask::{
    full, lemma_empty_has_none, lemma_full_is_unique, lemma_insert_grows, lemma_insert_member,
    lemma_members_below, member, size,
};

verus! {

/// The weight that stands for a leg that does not exist.
pub const INFINITY: i32 = 1_073_741_823;

/// A dense matrix of leg weights: `graph[i][j]` is the weight of the leg from
/// node `i` to node `j`.
pub type Graph = Vec<Vec<i32>>;

/// The matrix as mathematical integers.
pub open spec fn weights(g: &Graph) -> Seq<Seq<int>> {
    Seq::new(g@.len(), |i: int| Seq::new(g@[i]@.len(), |j: int| g@[i]@[j] as int))
}

/// Every row is as long as the matrix has rows.
pub open spec fn square(w: Seq<Seq<int>>) -> bool {
    forall|i: int| 0 <= i < w.len() ==> (#[trigger] w[i]).len() == w.len()
}

/// The weight of the leg from `from` to `to`. Staying in place costs nothing:
/// the diagonal of the matrix is never read.
pub open spec fn leg(w: Seq<Seq<int>>, from: int, to: int) -> int {
    if from == to {
        0
    } else {
        w[from][to]
    }
}

/// The sum of the weights of the consecutive legs of `r`.
pub open spec fn route_cost(w: Seq<Seq<int>>, r: Seq<int>) -> int
    decreases r.len(),
{
    if r.len() < 2 {
        0
    } else {
        route_cost(w, r.drop_last()) + leg(w, r[r.len() - 2], r[r.len() - 1])
    }
}

/// Whether `r` can be travelled: none of its legs is missing, and from its
/// third node on the cost of every part travelled so far stays below
/// `INFINITY`.
pub open spec fn passable(w: Seq<Seq<int>>, r: Seq<int>) -> bool
    decreases r.len(),
{
    if r.len() < 2 {
        true
    } else {
        &&& passable(w, r.drop_last())
        &&& leg(w, r[r.len() - 2], r[r.len() - 1]) != INFINITY
        &&& (r.len() >= 3 ==> route_cost(w, r) < INFINITY)
    }
}

/// A route leaves `start` and visits nodes below `n`, none of them twice.
pub open spec fn is_route(n: int, start: int, r: Seq<int>) -> bool {
    &&& r.len() >= 1
    &&& r[0] == start
    &&& forall|k: int| 0 <= k < r.len() ==> 0 <= #[trigger] r[k] < n
    &&& forall|i: int, j: int| 0 <= i < j < r.len() ==> r[i] != r[j]
}

/// A tour over `n` nodes is a route through all of them that then returns to
/// `start`.
pub open spec fn is_tour(n: int, start: int, t: Seq<int>) -> bool {
    &&& t.len() == n + 1
    &&& is_route(n, start, t.drop_last())
    &&& t.last() == start
}

/// A tour of the matrix that can be travelled.
pub open spec fn feasible_tour(w: Seq<Seq<int>>, start: int, t: Seq<int>) -> bool {
    &&& is_tour(w.len() as int, start, t)
    &&& passable(w, t)
}

/// A feasible tour that no feasible tour undercuts.
pub open spec fn optimal_tour(w: Seq<Seq<int>>, start: int, t: Seq<int>) -> bool {
    &&& feasible_tour(w, start, t)
    &&& forall|u: Seq<int>| #[trigger]
        feasible_tour(w, start, u) ==> route_cost(w, t) <= route_cost(w, u)
}

/// `t` and `u` are equally long, `t` has the lower node at `j`, and behind
/// `j` the two agree.
pub open spec fn lower_at(t: Seq<int>, u: Seq<int>, j: int) -> bool {
    &&& t.len() == u.len()
    &&& 0 <= j < t.len()
    &&& t[j] < u[j]
    &&& forall|i: int| j < i < t.len() ==> #[trigger] t[i] == u[i]
}

/// `t` comes before `u` when the two are read from their ends: at the last
/// place where they differ, `t` has the lower node.
pub open spec fn leads(t: Seq<int>, u: Seq<int>) -> bool {
    exists|j: int| #[trigger] lower_at(t, u, j)
}

/// The optimal tour that comes before every other optimal tour. Of two
/// ways that cost the same, it takes the one through the lower node, the
/// last leg deciding first.
pub open spec fn chosen_tour(w: Seq<Seq<int>>, start: int, t: Seq<int>) -> bool {
    &&& optimal_tour(w, start, t)
    &&& forall|u: Seq<int>| #[trigger] optimal_tour(w, start, u) ==> u == t || leads(t, u)
}

/// A sequence of node indices as mathematical integers.
pub open spec fn nodes(p: Seq<usize>) -> Seq<int> {
    Seq::new(p.len(), |i: int| p[i] as int)
}

/// The set of the nodes of `r`, as a bit mask.
pub open spec fn route_mask(r: Seq<int>) -> nat
    decreases r.len(),
{
    if r.len() == 0 {
        0
    } else {
        route_mask(r.drop_last()) + pow2(r.last() as nat)
    }
}

/// The mask of a sequence of distinct nodes holds exactly those nodes.
pub proof fn lemma_route_mask_members(r: Seq<int>, j: nat)
    requires
        forall|k: int| 0 <= k < r.len() ==> 0 <= #[trigger] r[k],
        forall|a: int, b: int| 0 <= a < b < r.len() ==> r[a] != r[b],
    ensures
        member(route_mask(r), j) == r.contains(j as int),
        size(route_mask(r)) == r.len(),
    decreases r.len(),
{
    if r.len() == 0 {
        lemma_empty_has_none(j);
    } else {
        let front = r.drop_last();
        let e = r.last() as nat;
        lemma_route_mask_members(front, j);
        lemma_route_mask_members(front, e);
        if front.contains(e as int) {
            let k = choose|k: int| 0 <= k < front.len() && front[k] == e as int;
            assert(r[k] == r[r.len() - 1]);
        }
        lemma_insert_member(route_mask(front), e, j);
        lemma_insert_grows(route_mask(front), e);
        if r.contains(j as int) {
            let k = choose|k: int| 0 <= k < r.len() && r[k] == j as int;
            if k < r.len() - 1 {
                assert(front[k] == j as int);
            }
        }
        if front.contains(j as int) {
            let k = choose|k: int| 0 <= k < front.len() && front[k] == j as int;
            assert(r[k] == j as int);
        }
        if j == e {
            assert(r[r.len() - 1] == j as int);
        }
    }
}

/// The mask of a route over `n` nodes lies below `pow2(n)`.
pub proof fn lemma_route_mask_below(n: int, start: int, r: Seq<int>)
    requires
        is_route(n, start, r),
    ensures
        route_mask(r) < pow2(n as nat),
{
    assert forall|j: nat| #[trigger] member(route_mask(r), j) implies j < n by {
        lemma_route_mask_members(r, j);
        let k = choose|k: int| 0 <= k < r.len() && r[k] == j as int;
        assert(0 <= r[k] < n);
    }
    lemma_members_below(route_mask(r), n as nat);
}

/// A route through `n` nodes out of `n` visits the full set.
pub proof fn lemma_whole_route_is_full(n: int, start: int, r: Seq<int>)
    requires
        is_route(n, start, r),
        r.len() == n,
    ensures
        route_mask(r) == full(n as nat),
{
    lemma_route_mask_below(n, start, r);
    lemma_route_mask_members(r, 0);
    lemma_full_is_unique(route_mask(r), n as nat);
}

/// The mask of the route from `start` straight to `e`.
pub proof fn lemma_pair_mask(start: int, e: int)
    requires
        0 <= start,
        0 <= e,
    ensures
        route_mask(seq![start, e]) == pow2(start as nat) + pow2(e as nat),
{
    let r = seq![start, e];
    assert(r.drop_last() =~= seq![start]);
    assert(seq![start].drop_last() =~= Seq::<int>::empty());
    assert(route_mask(Seq::<int>::empty()) == 0);
    assert(route_mask(seq![start]) == pow2(start as nat));
}

/// A feasible tour costs less than `INFINITY`.
pub proof fn lemma_feasible_cost(w: Seq<Seq<int>>, start: int, t: Seq<int>)
    requires
        feasible_tour(w, start, t),
    ensures
        route_cost(w, t) < INFINITY,
{
    if w.len() == 1 {
        assert(t.drop_last()[0] == t[0]);
        assert(route_cost(w, t.drop_last()) == 0);
    }
}

/// With one node there is one tour, which stays at the start and costs
/// nothing.
pub proof fn lemma_single_node(w: Seq<Seq<int>>)
    requires
        w.len() == 1,
    ensures
        chosen_tour(w, 0, seq![0, 0]),
        route_cost(w, seq![0, 0]) == 0,
{
    let t = seq![0int, 0int];
    assert(t.drop_last() =~= seq![0int]);
    assert(route_cost(w, seq![0int]) == 0);
    assert(passable(w, seq![0int]));
    assert(feasible_tour(w, 0, t));
    assert forall|u: Seq<int>| #[trigger] feasible_tour(w, 0, u) implies u == t by {
        assert(u.drop_last()[0] == u[0]);
        assert(u =~= t);
    }
}

} // verus!
