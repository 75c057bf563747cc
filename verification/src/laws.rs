//! What holds of tours in general: facts that follow from the definitions
//! and that the answers of the library can be read against.

use vstd::prelude::*;
use crate::mask::lemma_full_has_all;
use crate::tour::{
    chosen_tour, feasible_tour, is_tour, leads, leg, lemma_feasible_cost,
    lemma_route_mask_members, lemma_whole_route_is_full, lower_at, passable, route_cost, square,
    INFINITY,
};

verus! {

/// At most one tour is the chosen one: the answer to a question is settled
/// by the matrix and the start.
pub proof fn lemma_chosen_is_unique(w: Seq<Seq<int>>, start: int, t: Seq<int>, u: Seq<int>)
    requires
        chosen_tour(w, start, t),
        chosen_tour(w, start, u),
    ensures
        t == u,
{
    if t != u {
        assert(leads(t, u));
        assert(leads(u, t));
        let i = choose|i: int| #[trigger] lower_at(t, u, i);
        let j = choose|j: int| #[trigger] lower_at(u, t, j);
        if i < j {
            assert(t[j] == u[j]);
        } else if j < i {
            assert(u[i] == t[i]);
        }
    }
}

/// A tour visits every node.
pub proof fn lemma_tour_visits_all(n: int, start: int, t: Seq<int>, k: int)
    requires
        is_tour(n, start, t),
        0 <= k < n,
    ensures
        t.drop_last().contains(k),
{
    let r = t.drop_last();
    lemma_whole_route_is_full(n, start, r);
    lemma_full_has_all(n as nat, k as nat);
    lemma_route_mask_members(r, k as nat);
}

/// No leg of a passable route is missing.
pub proof fn lemma_passable_legs(w: Seq<Seq<int>>, r: Seq<int>, k: int)
    requires
        passable(w, r),
        0 <= k < r.len() - 1,
    ensures
        leg(w, r[k], r[k + 1]) != INFINITY,
    decreases r.len(),
{
    if k < r.len() - 2 {
        lemma_passable_legs(w, r.drop_last(), k);
    }
}

/// Where no weight is negative, a route can be travelled as soon as it
/// costs less than `INFINITY`.
pub proof fn lemma_nonnegative_route(w: Seq<Seq<int>>, r: Seq<int>)
    requires
        square(w),
        forall|k: int| 0 <= k < r.len() ==> 0 <= #[trigger] r[k] < w.len(),
        forall|i: int, j: int| 0 <= i < w.len() && 0 <= j < w.len() ==> #[trigger] w[i][j] >= 0,
        route_cost(w, r) < INFINITY,
    ensures
        route_cost(w, r) >= 0,
        passable(w, r),
    decreases r.len(),
{
    if r.len() >= 2 {
        let front = r.drop_last();
        let a = r[r.len() - 2];
        let b = r[r.len() - 1];
        assert(w[a][b] >= 0);
        lemma_nonnegative_cost(w, front);
        lemma_nonnegative_route(w, front);
    }
}

/// Where no weight is negative, no route costs less than nothing.
pub proof fn lemma_nonnegative_cost(w: Seq<Seq<int>>, r: Seq<int>)
    requires
        square(w),
        forall|k: int| 0 <= k < r.len() ==> 0 <= #[trigger] r[k] < w.len(),
        forall|i: int, j: int| 0 <= i < w.len() && 0 <= j < w.len() ==> #[trigger] w[i][j] >= 0,
    ensures
        route_cost(w, r) >= 0,
    decreases r.len(),
{
    if r.len() >= 2 {
        let a = r[r.len() - 2];
        let b = r[r.len() - 1];
        assert(w[a][b] >= 0);
        lemma_nonnegative_cost(w, r.drop_last());
    }
}

/// Where no weight is negative, the feasible tours are the tours that cost
/// less than `INFINITY`.
pub proof fn lemma_nonnegative_feasible(w: Seq<Seq<int>>, start: int, t: Seq<int>)
    requires
        square(w),
        forall|i: int, j: int| 0 <= i < w.len() && 0 <= j < w.len() ==> #[trigger] w[i][j] >= 0,
        is_tour(w.len() as int, start, t),
    ensures
        feasible_tour(w, start, t) <==> route_cost(w, t) < INFINITY,
{
    if feasible_tour(w, start, t) {
        lemma_feasible_cost(w, start, t);
    }
    if route_cost(w, t) < INFINITY {
        assert forall|k: int| 0 <= k < t.len() implies 0 <= #[trigger] t[k] < w.len() by {
            if k < t.len() - 1 {
                assert(t.drop_last()[k] == t[k]);
            } else {
                assert(t.drop_last()[0] == t[0]);
            }
        }
        lemma_nonnegative_route(w, t);
    }
}

/// A graph of two or more nodes has no feasible tour when one of its nodes
/// cannot be left, or cannot be entered: every leg out of it, or every leg
/// into it, is missing.
pub proof fn lemma_cut_off_node(w: Seq<Seq<int>>, start: int, v: int)
    requires
        w.len() >= 2,
        0 <= v < w.len(),
        (forall|j: int| 0 <= j < w.len() && j != v ==> #[trigger] w[v][j] == INFINITY) || (forall|
            i: int,
        |
            0 <= i < w.len() && i != v ==> (#[trigger] w[i])[v] == INFINITY),
    ensures
        forall|u: Seq<int>| !feasible_tour(w, start, u),
{
    let n = w.len() as int;
    assert forall|u: Seq<int>| !feasible_tour(w, start, u) by {
        if feasible_tour(w, start, u) {
            let r = u.drop_last();
            lemma_tour_visits_all(n, start, u, v);
            let k = choose|k: int| 0 <= k < r.len() && r[k] == v;
            assert(u[k] == v);
            assert(r[0] == u[0]);
            assert(u[n] == start);
            assert forall|i: int| 0 <= i < n implies #[trigger] u[i] == r[i] by {}
            if forall|j: int| 0 <= j < w.len() && j != v ==> #[trigger] w[v][j] == INFINITY {
                lemma_passable_legs(w, u, k);
                let next = u[k + 1];
                if k + 1 < n {
                    assert(r[k] != r[k + 1]);
                    assert(0 <= r[k + 1] < n);
                } else {
                    assert(r[0] != r[k]);
                }
                assert(w[v][next] == INFINITY);
            } else {
                let at = if k == 0 {
                    n - 1
                } else {
                    k - 1
                };
                lemma_passable_legs(w, u, at);
                let before = u[at];
                assert(0 <= r[at] < n);
                if k == 0 {
                    assert(r[0] != r[at]);
                } else {
                    assert(r[at] != r[k]);
                }
                assert(w[before][v] == INFINITY);
            }
        }
    }
}

} // verus!
