//! The search itself: it fills the table of best arrivals set by set, closes
//! the tour at the start, and reads the tour back out of the table.

use vstd::prelude::*;
use vstd::arithmetic::power2::{lemma_pow2_pos, pow2};
use vstd::bits::lemma_usize_pow2_no_overflow;
use crate::mask::{
    bit, count_ones, full, has_bit, lemma_full_has_all, lemma_member_bounds, lemma_remove_member,
    lemma_remove_shrinks, lemma_size_bounded, member, size,
};
use crate::table::{
    best_among, best_of, cell, complete, is_state, lemma_closing, lemma_pair_size,
    lemma_pair_state, lemma_state_before, lemma_two_members, offer, only_states, route_of,
    settled, settled_before, shaped, within, Arrival, Memo,
};
use crate::tour::{
    chosen_tour, feasible_tour, leg, lemma_pair_mask, lemma_route_mask_below,
    lemma_route_mask_members, lemma_single_node, nodes, route_cost, square, weights, Graph,
    INFINITY,
};

verus! {

/// A row with no arrival in it.
fn blank_row(n: usize) -> (row: Vec<Option<Arrival>>)
    ensures
        row@.len() == n,
        forall|e: int| 0 <= e < n ==> row@[e] is None,
{
    let mut row: Vec<Option<Arrival>> = Vec::new();
    while row.len() < n
        invariant
            row@.len() <= n,
            forall|e: int| 0 <= e < row@.len() ==> row@[e] is None,
        decreases n - row@.len(),
    {
        row.push(None);
    }
    row
}

/// A table for `n` nodes with no arrival in it.
pub fn blank_table(n: usize) -> (t: Memo)
    requires
        n < usize::BITS,
    ensures
        shaped(t@, n as nat),
        forall|m: int, e: int| 0 <= m < pow2(n as nat) && 0 <= e < n ==> t@[m]@[e] is None,
{
    let rows: usize = bit(n);
    let mut t: Memo = Vec::new();
    while t.len() < rows
        invariant
            rows == pow2(n as nat),
            t@.len() <= rows,
            forall|m: int| 0 <= m < t@.len() ==> (#[trigger] t@[m])@.len() == n,
            forall|m: int, e: int| 0 <= m < t@.len() && 0 <= e < n ==> t@[m]@[e] is None,
        decreases rows - t@.len(),
    {
        t.push(blank_row(n));
    }
    t
}

/// The best way to arrive at `e` from a node of the set `pm`, which does not
/// hold `e`: the cheapest below `INFINITY`, from the lowest node among
/// equals.
pub fn best_arrival(t: &Memo, graph: &Graph, start: usize, pm: usize, e: usize) -> (found: Option<
    Arrival,
>)
    requires
        square(weights(graph)),
        graph@.len() < usize::BITS,
        start < graph@.len(),
        e < graph@.len(),
        shaped(t@, graph@.len() as nat),
        pm < pow2(graph@.len() as nat),
        e == start || !member(pm as nat, e as nat),
        forall|p: int|
            0 <= p < graph@.len() && p != start && member(pm as nat, p as nat) && (#[trigger] cell(
                t@,
                pm as nat,
                p,
            )) is Some ==> within(cell(t@, pm as nat, p).unwrap().cost as int, pm as nat),
    ensures
        best_of(weights(graph), start as int, t@[pm as int]@, pm as nat, e as int, found),
        found is Some ==> -((size(pm as nat) + 1) * 0x8000_0000) <= found.unwrap().cost,
{
    let n: usize = graph.len();
    let ghost w = weights(graph);
    let ghost row = t@[pm as int]@;
    proof {
        lemma_size_bounded(pm as nat, n as nat);
    }
    let mut found: Option<Arrival> = None;
    for p in 0..n
        invariant
            n == graph@.len(),
            n < usize::BITS,
            w == weights(graph),
            square(w),
            start < n,
            e < n,
            shaped(t@, n as nat),
            pm < pow2(n as nat),
            size(pm as nat) <= n,
            row == t@[pm as int]@,
            e == start || !member(pm as nat, e as nat),
            forall|q: int|
                0 <= q < n && q != start && member(pm as nat, q as nat) && (#[trigger] cell(
                    t@,
                    pm as nat,
                    q,
                )) is Some ==> within(cell(t@, pm as nat, q).unwrap().cost as int, pm as nat),
            best_among(w, start as int, row, pm as nat, e as int, p as int, found),
            found is Some ==> -((size(pm as nat) + 1) * 0x8000_0000) <= found.unwrap().cost,
    {
        assert(graph@[p as int]@.len() == w[p as int].len());
        if p != start && has_bit(pm, p) {
            if let Some(b) = t[pm][p] {
                assert(cell(t@, pm as nat, p as int) == Some(b));
                if b.cost != INFINITY as i64 && graph[p][e] != INFINITY {
                    let c: i64 = b.cost + graph[p][e] as i64;
                    let better = match found {
                        None => c < INFINITY as i64,
                        Some(a) => c < a.cost,
                    };
                    if better {
                        found = Some(Arrival { cost: c, prev: p });
                    }
                }
            }
        }
        assert(best_among(w, start as int, row, pm as nat, e as int, p + 1, found)) by {
            assert forall|q: int|
                0 <= q < p + 1 && (#[trigger] offer(w, start as int, row, pm as nat, q, e as int))
                    is Some implies q < p || q == p by {}
        }
    }
    found
}

/// The entries for the sets of the start and one other node, as far as the
/// nodes below `upto` go; every other entry is empty.
pub open spec fn seeded(
    w: Seq<Seq<int>>,
    start: int,
    t: Seq<Vec<Option<Arrival>>>,
    upto: int,
) -> bool {
    forall|m: nat, e: int|
        m < pow2(w.len()) && 0 <= e < w.len() ==> (#[trigger] cell(t, m, e)) == if e != start
            && e < upto && m == pow2(start as nat) + pow2(e as nat) && leg(w, start, e)
            != INFINITY {
            Some(Arrival { cost: leg(w, start, e) as i64, prev: start as usize })
        } else {
            None
        }
}

/// Records the leg from the start to every other node that has one.
pub fn seed(t: &mut Memo, graph: &Graph, start: usize)
    requires
        square(weights(graph)),
        2 <= graph@.len() < usize::BITS,
        start < graph@.len(),
        shaped(old(t)@, graph@.len() as nat),
        forall|m: int, e: int|
            0 <= m < pow2(graph@.len() as nat) && 0 <= e < graph@.len() ==> old(t)@[m]@[e] is None,
    ensures
        shaped(final(t)@, graph@.len() as nat),
        seeded(weights(graph), start as int, final(t)@, graph@.len() as int),
        only_states(graph@.len() as int, start as int, final(t)@),
        settled_before(weights(graph), start as int, final(t)@, 3, 0),
{
    let n: usize = graph.len();
    let ghost w = weights(graph);
    let home: usize = bit(start);
    assert(graph@[start as int]@.len() == w[start as int].len());
    for i in 0..n
        invariant
            n == graph@.len(),
            2 <= n < usize::BITS,
            w == weights(graph),
            square(w),
            start < n,
            home == pow2(start as nat),
            graph@[start as int]@.len() == n,
            shaped(t@, n as nat),
            seeded(w, start as int, t@, i as int),
    {
        if i != start && graph[start][i] != INFINITY {
            let there: usize = bit(i);
            proof {
                lemma_pair_mask(start as int, i as int);
                lemma_route_mask_below(n as int, start as int, seq![start as int, i as int]);
                lemma_usize_pow2_no_overflow(n as nat);
            }
            let mask: usize = home + there;
            let ghost before = t@;
            t[mask][i] = Some(Arrival { cost: graph[start][i] as i64, prev: start });
            assert forall|m: nat, e: int| m < pow2(w.len()) && 0 <= e < w.len() implies (
            #[trigger] cell(t@, m, e)) == if e != start && e < i + 1 && m == pow2(start as nat)
                + pow2(e as nat) && leg(w, start as int, e) != INFINITY {
                Some(Arrival { cost: leg(w, start as int, e) as i64, prev: start })
            } else {
                None
            } by {
                assert(cell(before, m, e) == before[m as int]@[e]);
                if m == mask && e != i {
                    if m == pow2(start as nat) + pow2(e as nat) {
                        if e < i {
                            vstd::arithmetic::power2::lemma_pow2_strictly_increases(
                                e as nat,
                                i as nat,
                            );
                        } else {
                            vstd::arithmetic::power2::lemma_pow2_strictly_increases(
                                i as nat,
                                e as nat,
                            );
                        }
                    }
                }
            }
        }
    }
    proof {
        assert forall|m: nat, e: int|
            is_state(n as int, start as int, m, e) && (size(m) < 3 || (size(m) == 3 && m
                < 0)) implies #[trigger] settled(w, start as int, t@, m, e) by {
            lemma_pair_state(n as int, start as int, m, e);
            lemma_pair_size(start as int, e);
        }
        assert forall|m: nat, e: int|
            m < pow2(n as nat) && 0 <= e < n && (#[trigger] cell(t@, m, e))
                is Some implies is_state(n as int, start as int, m, e) by {
            let pair = seq![start as int, e];
            lemma_pair_mask(start as int, e);
            lemma_route_mask_members(pair, start as nat);
            lemma_route_mask_members(pair, e as nat);
        }
    }
}

/// Settles the states of the set `m`, given that the smaller sets are
/// settled.
fn settle_set(t: &mut Memo, graph: &Graph, start: usize, m: usize)
    requires
        square(weights(graph)),
        graph@.len() < usize::BITS,
        start < graph@.len(),
        shaped(old(t)@, graph@.len() as nat),
        m < pow2(graph@.len() as nat),
        member(m as nat, start as nat),
        size(m as nat) >= 3,
        only_states(graph@.len() as int, start as int, old(t)@),
        settled_before(weights(graph), start as int, old(t)@, size(m as nat), m as nat),
    ensures
        shaped(final(t)@, graph@.len() as nat),
        only_states(graph@.len() as int, start as int, final(t)@),
        settled_before(weights(graph), start as int, final(t)@, size(m as nat), (m + 1) as nat),
{
    let n: usize = graph.len();
    let ghost w = weights(graph);
    let ghost stage = size(m as nat);
    for e in 0..n
        invariant
            n == graph@.len(),
            n < usize::BITS,
            w == weights(graph),
            square(w),
            start < n,
            shaped(t@, n as nat),
            m < pow2(n as nat),
            member(m as nat, start as nat),
            stage == size(m as nat),
            stage >= 3,
            only_states(n as int, start as int, t@),
            settled_before(w, start as int, t@, stage, m as nat),
            forall|e2: int|
                0 <= e2 < e && is_state(n as int, start as int, m as nat, e2)
                    ==> #[trigger] settled(w, start as int, t@, m as nat, e2),
    {
        if e != start && has_bit(m, e) {
            let there: usize = bit(e);
            proof {
                lemma_remove_member(m as nat, e as nat, e as nat);
                lemma_remove_shrinks(m as nat, e as nat);
            }
            let pm: usize = m - there;
            proof {
                assert forall|p: int|
                    0 <= p < n && p != start && member(pm as nat, p as nat) && (#[trigger] cell(
                        t@,
                        pm as nat,
                        p,
                    )) is Some implies within(
                    cell(t@, pm as nat, p).unwrap().cost as int,
                    pm as nat,
                ) by {
                    assert(settled(w, start as int, t@, pm as nat, p));
                }
            }
            let found = best_arrival(t, graph, start, pm, e);
            let ghost before = t@;
            t[m][e] = found;
            proof {
                assert forall|m2: nat, e2: int|
                    m2 < pow2(n as nat) && 0 <= e2 < n && (#[trigger] cell(t@, m2, e2))
                        is Some implies is_state(n as int, start as int, m2, e2) by {
                    if m2 != m || e2 != e {
                        assert(cell(t@, m2, e2) == cell(before, m2, e2));
                    }
                }
                assert forall|m2: nat, e2: int|
                    is_state(n as int, start as int, m2, e2) && (size(m2) < stage || (size(m2)
                        == stage && m2 < m)) implies #[trigger] settled(
                    w,
                    start as int,
                    t@,
                    m2,
                    e2,
                ) by {
                    assert(settled(w, start as int, before, m2, e2));
                    lemma_remove_shrinks(m2, e2 as nat);
                }
                assert forall|e2: int|
                    0 <= e2 < e + 1 && is_state(
                        n as int,
                        start as int,
                        m as nat,
                        e2,
                    ) implies #[trigger] settled(w, start as int, t@, m as nat, e2) by {
                    lemma_remove_shrinks(m as nat, e2 as nat);
                    lemma_pair_size(start as int, e2);
                    if e2 < e {
                        assert(settled(w, start as int, before, m as nat, e2));
                    }
                }
            }
        }
    }
}

/// Settles every set of three or more nodes, the smaller sets first.
pub fn expand(t: &mut Memo, graph: &Graph, start: usize)
    requires
        square(weights(graph)),
        2 <= graph@.len() < usize::BITS,
        start < graph@.len(),
        shaped(old(t)@, graph@.len() as nat),
        only_states(graph@.len() as int, start as int, old(t)@),
        settled_before(weights(graph), start as int, old(t)@, 3, 0),
    ensures
        shaped(final(t)@, graph@.len() as nat),
        only_states(graph@.len() as int, start as int, final(t)@),
        complete(weights(graph), start as int, final(t)@),
{
    let n: usize = graph.len();
    let ghost w = weights(graph);
    let limit: usize = bit(n);
    for stage in 3..n + 1
        invariant
            n == graph@.len(),
            2 <= n < usize::BITS,
            w == weights(graph),
            square(w),
            start < n,
            limit == pow2(n as nat),
            shaped(t@, n as nat),
            only_states(n as int, start as int, t@),
            settled_before(w, start as int, t@, stage as nat, 0),
    {
        for m in 0..limit
            invariant
                n == graph@.len(),
                2 <= n < usize::BITS,
                w == weights(graph),
                square(w),
                start < n,
                3 <= stage,
                limit == pow2(n as nat),
                shaped(t@, n as nat),
                only_states(n as int, start as int, t@),
                settled_before(w, start as int, t@, stage as nat, m as nat),
        {
            if count_ones(m) == stage && has_bit(m, start) {
                settle_set(t, graph, start, m);
            }
        }
    }
    proof {
        assert forall|m: nat, e: int|
            is_state(w.len() as int, start as int, m, e) implies #[trigger] settled(
            w,
            start as int,
            t@,
            m,
            e,
        ) by {
            lemma_size_bounded(m, n as nat);
        }
    }
}

/// Reads the route to `last` through all the nodes back out of the table,
/// and closes it at the start. The answer is empty only where the table
/// contradicts itself.
pub fn retrace(t: &Memo, graph: &Graph, start: usize, last: usize) -> (path: Option<Vec<usize>>)
    requires
        square(weights(graph)),
        2 <= graph@.len() < usize::BITS,
        start < graph@.len(),
        shaped(t@, graph@.len() as nat),
        complete(weights(graph), start as int, t@),
        is_state(graph@.len() as int, start as int, full(graph@.len() as nat), last as int),
        cell(t@, full(graph@.len() as nat), last as int) is Some,
    ensures
        path is Some,
        nodes(path.unwrap()@) == route_of(
            t@,
            start as int,
            full(graph@.len() as nat),
            last as int,
        ).push(start as int),
{
    let n: usize = graph.len();
    let ghost w = weights(graph);
    let ghost whole = route_of(t@, start as int, full(n as nat), last as int);
    let ghost mut tail: Seq<int> = Seq::empty();
    let mut seg: Vec<usize> = Vec::new();
    let mut mask: usize = bit(n) - 1;
    let mut node: usize = last;
    proof {
        lemma_full_has_all(n as nat, 0);
        assert(whole + tail =~= whole);
    }
    while node != start
        invariant
            square(w),
            w.len() == n,
            2 <= n < usize::BITS,
            start < n,
            shaped(t@, n as nat),
            complete(w, start as int, t@),
            node < n,
            mask < pow2(n as nat),
            tail.len() == seg@.len(),
            forall|i: int| 0 <= i < seg@.len() ==> tail[i] == seg@[seg@.len() - 1 - i],
            node != start ==> {
                &&& is_state(n as int, start as int, mask as nat, node as int)
                &&& cell(t@, mask as nat, node as int) is Some
                &&& whole == route_of(t@, start as int, mask as nat, node as int) + tail
                &&& seg@.len() + size(mask as nat) == n
            },
            node == start ==> whole == seq![start as int] + tail,
        decreases n - seg@.len(),
    {
        proof {
            lemma_two_members(mask as nat, start as nat, node as nat);
        }
        if seg.len() >= n {
            return None;
        }
        seg.push(node);
        match t[mask][node] {
            Some(a) => {
                let there: usize = bit(node);
                proof {
                    assert(cell(t@, mask as nat, node as int) == Some(a));
                    assert(settled(w, start as int, t@, mask as nat, node as int));
                    lemma_member_bounds(mask as nat, node as nat);
                    lemma_pow2_pos(node as nat);
                    let here = route_of(t@, start as int, mask as nat, node as int);
                    let longer = seq![node as int] + tail;
                    if mask == pow2(start as nat) + pow2(node as nat) {
                        assert(here == seq![start as int, node as int]);
                        assert(here + tail =~= seq![start as int] + longer);
                    } else {
                        let pm = (mask - pow2(node as nat)) as nat;
                        assert(offer(
                            w,
                            start as int,
                            t@[pm as int]@,
                            pm,
                            a.prev as int,
                            node as int,
                        ) is Some);
                        lemma_state_before(
                            n as int,
                            start as int,
                            mask as nat,
                            node as int,
                            a.prev as int,
                        );
                        let front = route_of(t@, start as int, pm, a.prev as int);
                        assert(here == front.push(node as int));
                        assert(here + tail =~= front + longer);
                    }
                    assert forall|i: int| 0 <= i < seg@.len() implies longer[i] == seg@[seg@.len()
                        - 1 - i] by {
                        if i > 0 {
                            assert(longer[i] == tail[i - 1]);
                        }
                    }
                    tail = longer;
                }
                mask = mask - there;
                node = a.prev;
            },
            None => {
                return None;
            },
        }
    }
    let mut path: Vec<usize> = Vec::new();
    path.push(start);
    let mut i: usize = seg.len();
    while i > 0
        invariant
            i <= seg@.len(),
            path@.len() == 1 + seg@.len() - i,
            path@[0] == start,
            forall|j: int| 1 <= j < path@.len() ==> #[trigger] path@[j] == seg@[seg@.len() - j],
        decreases i,
    {
        i = i - 1;
        path.push(seg[i]);
    }
    path.push(start);
    assert(nodes(path@) =~= whole.push(start as int));
    Some(path)
}

/// What a search over the matrix `w` from `start` hands back: the chosen
/// tour with its cost where a tour is feasible, and `INFINITY` with no tour
/// where none is. Over no nodes at all it is no cost and no tour.
pub open spec fn search_outcome(w: Seq<Seq<int>>, start: int, cost: int, path: Seq<usize>) -> bool {
    if w.len() == 0 {
        cost == 0 && path.len() == 0
    } else if exists|u: Seq<int>| feasible_tour(w, start, u) {
        chosen_tour(w, start, nodes(path)) && cost == route_cost(w, nodes(path))
    } else {
        cost == INFINITY && path.len() == 0
    }
}

/// A search for the cheapest tour of a graph from one of its nodes.
pub struct TspSolver {
    n: usize,
    graph: Graph,
    memo: Memo,
    start_node: usize,
}

impl TspSolver {
    /// The matrix that the search runs on.
    pub closed spec fn legs(&self) -> Seq<Seq<int>> {
        weights(&self.graph)
    }

    /// The node that the tour starts from.
    pub closed spec fn start(&self) -> int {
        self.start_node as int
    }

    /// The table of best arrivals, as the last search left it.
    pub closed spec fn table(&self) -> Seq<Vec<Option<Arrival>>> {
        self.memo@
    }

    /// The search can run: the matrix is square and small enough for a
    /// machine word to hold a set of its nodes, and the start is one of its
    /// nodes.
    pub closed spec fn ready(&self) -> bool {
        &&& self.n == self.graph@.len()
        &&& square(weights(&self.graph))
        &&& self.n < usize::BITS
        &&& self.n > 0 ==> self.start_node < self.n
    }

    /// A search over `graph` from `start_node`, with nothing found yet.
    pub fn new(graph: Graph, start_node: usize) -> (s: Self)
        ensures
            s.legs() == weights(&graph),
            s.start() == start_node,
            s.table().len() == 0,
            s.ready() <==> {
                &&& square(weights(&graph))
                &&& graph@.len() < usize::BITS
                &&& graph@.len() > 0 ==> start_node < graph@.len()
            },
    {
        let n: usize = graph.len();
        TspSolver { n, graph, memo: Vec::new(), start_node }
    }

    /// Runs the search and hands back the cost and the tour: nothing and
    /// no tour over no nodes, `INFINITY` and no tour where no tour is
    /// feasible. For two or more nodes the table is left filled.
    pub fn solve(&mut self) -> (r: (i64, Vec<usize>))
        requires
            old(self).ready(),
        ensures
            final(self).ready(),
            final(self).legs() == old(self).legs(),
            final(self).start() == old(self).start(),
            search_outcome(old(self).legs(), old(self).start(), r.0 as int, r.1@),
            old(self).legs().len() >= 2 ==> {
                &&& shaped(final(self).table(), old(self).legs().len())
                &&& only_states(
                    old(self).legs().len() as int,
                    old(self).start(),
                    final(self).table(),
                )
                &&& complete(old(self).legs(), old(self).start(), final(self).table())
            },
            old(self).legs().len() < 2 ==> final(self).table() == old(self).table(),
    {
        let ghost w = weights(&self.graph);
        if self.n == 0 {
            return (0, Vec::new());
        }
        if self.n == 1 {
            let path: Vec<usize> = vec![self.start_node, self.start_node];
            proof {
                lemma_single_node(w);
                assert(nodes(path@) =~= seq![0int, 0int]);
            }
            return (0, path);
        }
        let mut t: Memo = blank_table(self.n);
        seed(&mut t, &self.graph, self.start_node);
        expand(&mut t, &self.graph, self.start_node);
        self.memo = t;
        proof {
            lemma_pow2_pos(self.n as nat);
        }
        let all: usize = bit(self.n) - 1;
        proof {
            assert forall|p: int|
                0 <= p < self.n && p != self.start_node && member(all as nat, p as nat) && (
                #[trigger] cell(self.memo@, all as nat, p)) is Some implies within(
                cell(self.memo@, all as nat, p).unwrap().cost as int,
                all as nat,
            ) by {
                assert(settled(w, self.start_node as int, self.memo@, all as nat, p));
            }
        }
        let closing = best_arrival(&self.memo, &self.graph, self.start_node, all, self.start_node);
        proof {
            lemma_closing(w, self.start_node as int, self.memo@, closing);
        }
        match closing {
            None => (INFINITY as i64, Vec::new()),
            Some(a) => match retrace(&self.memo, &self.graph, self.start_node, a.prev) {
                Some(path) => (a.cost, path),
                None => (INFINITY as i64, Vec::new()),
            },
        }
    }
}

} // verus!
