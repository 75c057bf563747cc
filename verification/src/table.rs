//! The table of best arrivals: for every set of visited nodes and every node
//! of it, the cheapest passable route from the start through exactly that
//! set to that node. The conditions here tie each entry to its neighbours;
//! the lemmas derive from them what the whole table means for routes.

use vstd::prelude::*;
use vstd::arithmetic::power2::pow2;
use crate::mask::{
    full, lemma_full_has_all, lemma_remove_member, lemma_remove_shrinks, lemma_size_zero, member,
    size,
};
use crate::tour::{
    chosen_tour, feasible_tour, is_route, leads, leg, lemma_pair_mask, lemma_route_mask_below,
    lemma_route_mask_members, lemma_whole_route_is_full, lower_at, optimal_tour, passable,
    route_cost, route_mask, square, INFINITY,
};

verus! {

/// How a node is best reached: at what cost, and from which node.
#[derive(Clone, Copy, Debug, PartialEq, Eq)]
pub struct Arrival {
    pub cost: i64,
    pub prev: usize,
}

/// One row for every set of nodes, one entry in it for every node; an empty
/// entry says that the node cannot be reached through that set.
pub type Memo = Vec<Vec<Option<Arrival>>>;

/// The table has a row for every set of `n` nodes and an entry for every node.
pub open spec fn shaped(t: Seq<Vec<Option<Arrival>>>, n: nat) -> bool {
    &&& t.len() == pow2(n)
    &&& forall|m: int| 0 <= m < t.len() ==> (#[trigger] t[m])@.len() == n
}

/// The entry for reaching `e` through the set `m`.
pub open spec fn cell(t: Seq<Vec<Option<Arrival>>>, m: nat, e: int) -> Option<Arrival> {
    t[m as int]@[e]
}

/// `(m, e)` is a state of the search: a set that holds the start and `e`,
/// which is another node.
pub open spec fn is_state(n: int, start: int, m: nat, e: int) -> bool {
    &&& m < pow2(n as nat)
    &&& 0 <= e < n
    &&& e != start
    &&& member(m, start as nat)
    &&& member(m, e as nat)
}

/// The bound that keeps sums of costs inside the machine's integers: a cost
/// through the set `m` is at most `size(m)` weights away from zero.
pub open spec fn within(cost: int, m: nat) -> bool {
    -(size(m) * 0x8000_0000) <= cost <= size(m) * 0x8000_0000
}

/// What it costs to arrive at `e` from `p`, where `row` holds the arrivals
/// through the set `pm`; `None` where `p` offers no way.
pub open spec fn offer(
    w: Seq<Seq<int>>,
    start: int,
    row: Seq<Option<Arrival>>,
    pm: nat,
    p: int,
    e: int,
) -> Option<int> {
    if p != start && member(pm, p as nat) && row[p] is Some && row[p].unwrap().cost != INFINITY
        && leg(w, p, e) != INFINITY {
        Some(row[p].unwrap().cost + leg(w, p, e))
    } else {
        None
    }
}

/// `found` is the best way to arrive at `e` from a node of `pm` below
/// `upto`: the cheapest one below `INFINITY`, from the lowest node among
/// equals; or nothing, where no way is that cheap.
pub open spec fn best_among(
    w: Seq<Seq<int>>,
    start: int,
    row: Seq<Option<Arrival>>,
    pm: nat,
    e: int,
    upto: int,
    found: Option<Arrival>,
) -> bool {
    match found {
        None => forall|p: int|
            0 <= p < upto && (#[trigger] offer(w, start, row, pm, p, e)) is Some ==> offer(
                w,
                start,
                row,
                pm,
                p,
                e,
            ).unwrap() >= INFINITY,
        Some(a) => {
            &&& a.cost < INFINITY
            &&& a.prev < upto
            &&& offer(w, start, row, pm, a.prev as int, e) == Some(a.cost as int)
            &&& forall|p: int|
                0 <= p < upto && (#[trigger] offer(w, start, row, pm, p, e)) is Some ==> {
                    let c = offer(w, start, row, pm, p, e).unwrap();
                    a.cost <= c && (c == a.cost ==> a.prev <= p)
                }
        },
    }
}

/// `found` is the best way to arrive at `e` from any node of `pm`.
pub open spec fn best_of(
    w: Seq<Seq<int>>,
    start: int,
    row: Seq<Option<Arrival>>,
    pm: nat,
    e: int,
    found: Option<Arrival>,
) -> bool {
    best_among(w, start, row, pm, e, w.len() as int, found)
}

/// The entry of the state `(m, e)` is what its neighbours make it: the leg
/// from the start where the set holds these two nodes alone, else the best
/// arrival from the set without `e`.
pub open spec fn settled(
    w: Seq<Seq<int>>,
    start: int,
    t: Seq<Vec<Option<Arrival>>>,
    m: nat,
    e: int,
) -> bool {
    let found = cell(t, m, e);
    &&& found is Some ==> within(found.unwrap().cost as int, m)
    &&& if m == pow2(start as nat) + pow2(e as nat) {
        if leg(w, start, e) != INFINITY {
            &&& found is Some
            &&& found.unwrap().cost == leg(w, start, e)
            &&& found.unwrap().prev == start
        } else {
            found is None
        }
    } else {
        best_of(
            w,
            start,
            t[m - pow2(e as nat)]@,
            (m - pow2(e as nat)) as nat,
            e,
            found,
        )
    }
}

/// Every state of the table is settled.
pub open spec fn complete(w: Seq<Seq<int>>, start: int, t: Seq<Vec<Option<Arrival>>>) -> bool {
    forall|m: nat, e: int|
        is_state(w.len() as int, start, m, e) ==> #[trigger] settled(w, start, t, m, e)
}

/// Only states have an entry: the table records nothing for a set
/// without the start, for a node outside its set, or for the start itself.
pub open spec fn only_states(n: int, start: int, t: Seq<Vec<Option<Arrival>>>) -> bool {
    forall|m: nat, e: int|
        m < pow2(n as nat) && 0 <= e < n && (#[trigger] cell(t, m, e)) is Some ==> is_state(
            n,
            start,
            m,
            e,
        )
}

/// Every state is settled whose set holds fewer than `stage` nodes, or
/// `stage` nodes and lies below `upto`.
pub open spec fn settled_before(
    w: Seq<Seq<int>>,
    start: int,
    t: Seq<Vec<Option<Arrival>>>,
    stage: nat,
    upto: nat,
) -> bool {
    forall|m: nat, e: int|
        is_state(w.len() as int, start, m, e) && (size(m) < stage || (size(m) == stage && m
            < upto)) ==> #[trigger] settled(w, start, t, m, e)
}

/// The route that the table records for the state `(m, e)`, found by
/// following the entries back to the start.
pub open spec fn route_of(t: Seq<Vec<Option<Arrival>>>, start: int, m: nat, e: int) -> Seq<int>
    decreases m,
{
    match cell(t, m, e) {
        Some(a) => if a.prev == start || pow2(e as nat) == 0 || pow2(e as nat) > m {
            seq![start, e]
        } else {
            route_of(t, start, (m - pow2(e as nat)) as nat, a.prev as int).push(e)
        },
        None => seq![start, e],
    }
}

/// A set that holds two different nodes holds at least two.
pub proof fn lemma_two_members(m: nat, a: nat, b: nat)
    requires
        member(m, a),
        member(m, b),
        a != b,
    ensures
        size(m) >= 2,
{
    lemma_remove_shrinks(m, a);
    lemma_remove_member(m, a, b);
    lemma_remove_shrinks((m - pow2(a)) as nat, b);
}

/// A state of two nodes holds the start and its own node, and nothing else.
pub proof fn lemma_pair_state(n: int, start: int, m: nat, e: int)
    requires
        is_state(n, start, m, e),
        0 <= start,
        size(m) <= 2,
    ensures
        m == pow2(start as nat) + pow2(e as nat),
{
    lemma_remove_shrinks(m, e as nat);
    lemma_remove_member(m, e as nat, start as nat);
    let rest = (m - pow2(e as nat)) as nat;
    lemma_remove_shrinks(rest, start as nat);
    lemma_size_zero((rest - pow2(start as nat)) as nat);
}

/// The set of the start and one other node holds two nodes.
pub proof fn lemma_pair_size(start: int, e: int)
    requires
        0 <= start,
        0 <= e,
        start != e,
    ensures
        size(pow2(start as nat) + pow2(e as nat)) == 2,
{
    lemma_pair_mask(start, e);
    lemma_route_mask_members(seq![start, e], 0);
}

/// The state before a state of three or more nodes, seen from one of its
/// other nodes.
pub proof fn lemma_state_before(n: int, start: int, m: nat, e: int, p: int)
    requires
        is_state(n, start, m, e),
        0 <= p < n,
        p != start,
        0 <= start < n,
        member((m - pow2(e as nat)) as nat, p as nat),
    ensures
        m >= pow2(e as nat),
        is_state(n, start, (m - pow2(e as nat)) as nat, p),
        p != e,
        size((m - pow2(e as nat)) as nat) + 1 == size(m),
        !member((m - pow2(e as nat)) as nat, e as nat),
{
    lemma_remove_member(m, e as nat, start as nat);
    lemma_remove_member(m, e as nat, e as nat);
    lemma_remove_shrinks(m, e as nat);
}

/// The entry of a state stands for a route: the recorded route visits
/// exactly the state's set, ends at its node, is passable and costs what the
/// entry says.
pub proof fn lemma_recorded_route(
    w: Seq<Seq<int>>,
    start: int,
    t: Seq<Vec<Option<Arrival>>>,
    m: nat,
    e: int,
)
    requires
        square(w),
        0 <= start < w.len(),
        shaped(t, w.len()),
        complete(w, start, t),
        is_state(w.len() as int, start, m, e),
        cell(t, m, e) is Some,
    ensures
        is_route(w.len() as int, start, route_of(t, start, m, e)),
        route_of(t, start, m, e).len() >= 2,
        route_of(t, start, m, e).last() == e,
        route_mask(route_of(t, start, m, e)) == m,
        passable(w, route_of(t, start, m, e)),
        route_cost(w, route_of(t, start, m, e)) == cell(t, m, e).unwrap().cost,
    decreases m,
{
    let n = w.len() as int;
    let a = cell(t, m, e).unwrap();
    let r = route_of(t, start, m, e);
    assert(settled(w, start, t, m, e));
    if m == pow2(start as nat) + pow2(e as nat) {
        lemma_pair_mask(start, e);
        assert(r.drop_last() =~= seq![start]);
        assert(passable(w, seq![start]));
        assert(route_cost(w, seq![start]) == 0);
    } else {
        let pm = (m - pow2(e as nat)) as nat;
        let p = a.prev as int;
        lemma_state_before(n, start, m, e, p);
        lemma_recorded_route(w, start, t, pm, p);
        let front = route_of(t, start, pm, p);
        assert(r.drop_last() =~= front);
        lemma_route_mask_members(front, e as nat);
    }
}

/// No passable route undercuts the table: the state that a passable route
/// ends in has an entry, which costs no more than the route.
pub proof fn lemma_table_undercuts(
    w: Seq<Seq<int>>,
    start: int,
    t: Seq<Vec<Option<Arrival>>>,
    r: Seq<int>,
)
    requires
        square(w),
        0 <= start < w.len(),
        shaped(t, w.len()),
        complete(w, start, t),
        is_route(w.len() as int, start, r),
        r.len() >= 2,
        passable(w, r),
    ensures
        is_state(w.len() as int, start, route_mask(r), r.last()),
        cell(t, route_mask(r), r.last()) is Some,
        cell(t, route_mask(r), r.last()).unwrap().cost <= route_cost(w, r),
        cell(t, route_mask(r), r.last()).unwrap().cost != INFINITY,
    decreases r.len(),
{
    let n = w.len() as int;
    let m = route_mask(r);
    let e = r.last();
    let front = r.drop_last();
    lemma_route_mask_below(n, start, r);
    lemma_route_mask_members(r, start as nat);
    lemma_route_mask_members(r, e as nat);
    assert(settled(w, start, t, m, e));
    if r.len() == 2 {
        assert(r =~= seq![start, e]);
        lemma_pair_mask(start, e);
        assert(front =~= seq![start]);
        assert(route_cost(w, seq![start]) == 0);
    } else {
        let p = front.last();
        let pm = route_mask(front);
        lemma_table_undercuts(w, start, t, front);
        lemma_pair_mask(start, e);
        lemma_route_mask_members(seq![start, e], 0);
        let b = cell(t, pm, p).unwrap();
        assert(offer(w, start, t[pm as int]@, pm, p, e) == Some(b.cost + leg(w, p, e)));
    }
}

/// Among the passable routes to a state that cost what its entry says, the
/// recorded route comes first.
pub proof fn lemma_recorded_route_leads(
    w: Seq<Seq<int>>,
    start: int,
    t: Seq<Vec<Option<Arrival>>>,
    m: nat,
    e: int,
    r: Seq<int>,
)
    requires
        square(w),
        0 <= start < w.len(),
        shaped(t, w.len()),
        complete(w, start, t),
        is_state(w.len() as int, start, m, e),
        cell(t, m, e) is Some,
        is_route(w.len() as int, start, r),
        r.len() >= 2,
        passable(w, r),
        route_mask(r) == m,
        r.last() == e,
        route_cost(w, r) == cell(t, m, e).unwrap().cost,
    ensures
        r == route_of(t, start, m, e) || leads(route_of(t, start, m, e), r),
    decreases r.len(),
{
    let a = cell(t, m, e).unwrap();
    let r0 = route_of(t, start, m, e);
    lemma_recorded_route(w, start, t, m, e);
    lemma_route_mask_members(r, 0);
    lemma_route_mask_members(r0, 0);
    assert(settled(w, start, t, m, e));
    if r.len() > 2 {
        let front = r.drop_last();
        let p = front.last();
        let pm = route_mask(front);
        lemma_table_undercuts(w, start, t, front);
        let b = cell(t, pm, p).unwrap();
        assert(offer(w, start, t[pm as int]@, pm, p, e) == Some(b.cost + leg(w, p, e)));
        let front0 = route_of(t, start, pm, a.prev as int);
        if (a.prev as int) < p {
            assert(lower_at(r0, r, r.len() - 2));
        } else {
            lemma_recorded_route_leads(w, start, t, pm, p, front);
            if front != front0 {
                let j = choose|j: int| #[trigger] lower_at(front0, front, j);
                assert(lower_at(r0, r, j));
            }
        }
    }
}

/// What the best arrival back at the start says of tours, for two or more
/// nodes: where there is none, no tour is feasible; where there is one, the
/// route that the table records for the last node, closed at the start, is
/// the chosen tour, and the arrival's cost is the tour's.
pub proof fn lemma_closing(
    w: Seq<Seq<int>>,
    start: int,
    t: Seq<Vec<Option<Arrival>>>,
    found: Option<Arrival>,
)
    requires
        square(w),
        w.len() >= 2,
        0 <= start < w.len(),
        shaped(t, w.len()),
        complete(w, start, t),
        best_of(w, start, t[full(w.len()) as int]@, full(w.len()), start, found),
    ensures
        found is None ==> forall|u: Seq<int>| !feasible_tour(w, start, u),
        found is Some ==> {
            let a = found.unwrap();
            let tour = route_of(t, start, full(w.len()), a.prev as int).push(start);
            &&& is_state(w.len() as int, start, full(w.len()), a.prev as int)
            &&& cell(t, full(w.len()), a.prev as int) is Some
            &&& chosen_tour(w, start, tour)
            &&& route_cost(w, tour) == a.cost
        },
{
    let n = w.len() as int;
    let all = full(w.len());
    let row = t[all as int]@;
    lemma_full_has_all(w.len(), start as nat);
    assert forall|u: Seq<int>| feasible_tour(w, start, u) implies {
        &&& offer(w, start, row, all, u[n - 1], start) is Some
        &&& offer(w, start, row, all, u[n - 1], start).unwrap() <= route_cost(w, u)
        &&& route_cost(w, u) < INFINITY
        &&& 0 <= u[n - 1] < n
    } by {
        let r = u.drop_last();
        lemma_whole_route_is_full(n, start, r);
        lemma_table_undercuts(w, start, t, r);
    }
    if found is Some {
        let a = found.unwrap();
        let k = a.prev as int;
        lemma_recorded_route(w, start, t, all, k);
        let r = route_of(t, start, all, k);
        let tour = r.push(start);
        assert(tour.drop_last() =~= r);
        lemma_route_mask_members(r, 0);
        assert(feasible_tour(w, start, tour));
        assert forall|u: Seq<int>| #[trigger] optimal_tour(w, start, u) implies u == tour || leads(
            tour,
            u,
        ) by {
            let front = u.drop_last();
            let last = u[n - 1];
            lemma_whole_route_is_full(n, start, front);
            if k < last {
                assert(lower_at(tour, u, n - 1));
            } else {
                lemma_recorded_route_leads(w, start, t, all, last, front);
                if front != r {
                    let j = choose|j: int| #[trigger] lower_at(r, front, j);
                    assert(lower_at(tour, u, j));
                }
            }
        }
    }
}

} // verus!
