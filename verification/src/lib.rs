//! Exact cheapest tours by dynamic programming over sets of visited nodes.
//!
//! Given a square matrix of leg weights and a start node, the library finds
//! the cheapest tour that leaves the start, visits every other node once and
//! returns. A leg whose weight is `INFINITY` does not exist.

pub mod error;
pub mod laws;
pub mod mask;
pub mod solver;
pub mod table;
pub mod text;
pub mod tour;

pub use crate::error::TspError;
pub use crate::solver::TspSolver;
pub use crate::tour::{Graph, INFINITY};

use vstd::prelude::*;
use vstd::string::StringExecFns;
use crate::tour::{
    chosen_tour, feasible_tour, lemma_feasible_cost, nodes, optimal_tour, route_cost, square,
    weights,
};

verus! {

/// The matrix has a row, every row is as long as the matrix has rows, and
/// `start` is one of the nodes.
pub open spec fn well_formed(g: &Graph, start: usize) -> bool {
    &&& g@.len() > 0
    &&& square(weights(g))
    &&& start < g@.len()
}

/// Row `i` is the first whose length differs from the number of rows.
pub open spec fn first_ragged(g: &Graph, i: int) -> bool {
    &&& 0 <= i < g@.len()
    &&& g@[i]@.len() != g@.len()
    &&& forall|k: int| 0 <= k < i ==> (#[trigger] g@[k])@.len() == g@.len()
}

/// Checks the matrix and the start before any search: an empty matrix, the
/// first row of the wrong length and a start outside the graph are
/// reported, in this order.
pub fn validate(graph: &Graph, start_node: usize) -> (r: Result<(), TspError>)
    ensures
        r is Ok <==> well_formed(graph, start_node),
        graph@.len() == 0 ==> r matches Err(TspError::EmptyGraph),
        graph@.len() > 0 && !square(weights(graph)) ==> r matches Err(
            TspError::NonSquareGraph { .. },
        ),
        graph@.len() > 0 && square(weights(graph)) && start_node >= graph@.len() ==> r matches Err(
            TspError::StartNodeOutOfBounds { .. },
        ),
        match r {
            Ok(_) => well_formed(graph, start_node),
            Err(TspError::EmptyGraph) => graph@.len() == 0,
            Err(TspError::NonSquareGraph { rows, cols }) => {
                &&& rows == graph@.len()
                &&& exists|i: int| #[trigger] first_ragged(graph, i) && cols == graph@[i]@.len()
            },
            Err(TspError::StartNodeOutOfBounds { num_nodes, start_node: s }) => {
                &&& graph@.len() > 0
                &&& square(weights(graph))
                &&& start_node >= graph@.len()
                &&& num_nodes == graph@.len()
                &&& s == start_node
            },
            Err(_) => false,
        },
{
    let n: usize = graph.len();
    if n == 0 {
        return Err(TspError::EmptyGraph);
    }
    for i in 0..n
        invariant
            n == graph@.len(),
            forall|k: int| 0 <= k < i ==> (#[trigger] graph@[k])@.len() == n,
    {
        if graph[i].len() != n {
            assert(first_ragged(graph, i as int));
            assert(weights(graph)[i as int].len() == graph@[i as int]@.len());
            return Err(TspError::NonSquareGraph { rows: n, cols: graph[i].len() });
        }
    }
    assert(square(weights(graph))) by {
        assert forall|i: int| 0 <= i < weights(graph).len() implies (#[trigger] weights(
            graph,
        )[i]).len() == weights(graph).len() by {
            assert(graph@[i]@.len() == n);
        }
    }
    if start_node >= n {
        return Err(TspError::StartNodeOutOfBounds { num_nodes: n, start_node });
    }
    Ok(())
}

/// A path over `n` nodes has the outline of a tour from `start`: for more
/// than one node, it has one place more than there are nodes, and starts and
/// ends at `start`.
pub open spec fn tour_outline(n: int, start: int, path: Seq<usize>) -> bool {
    n > 1 ==> path.len() == n + 1 && path[0] == start && path[n] == start
}

/// What is said where the cost of the cheapest tour is not an `i32`.
pub open spec fn cost_out_of_range() -> Seq<char> {
    "biaya tur di luar jangkauan i32"@
}

/// Turns what a search handed back into the answer for the caller. A cost of
/// `INFINITY`, or a path without the outline of a tour, says that no tour was
/// found; a cost that is no `i32` cannot be handed on.
pub fn translate(n: usize, start_node: usize, cost: i64, path: Vec<usize>) -> (r: Result<
    (i32, Vec<usize>),
    TspError,
>)
    ensures
        r is Ok <==> {
            &&& cost != INFINITY
            &&& tour_outline(n as int, start_node as int, path@)
            &&& i32::MIN <= cost <= i32::MAX
        },
        match r {
            Ok((c, p)) => {
                &&& cost != INFINITY
                &&& tour_outline(n as int, start_node as int, path@)
                &&& c == cost
                &&& p == path
            },
            Err(TspError::NoPathFound) => cost == INFINITY || !tour_outline(
                n as int,
                start_node as int,
                path@,
            ),
            Err(TspError::InternalSolverError(msg)) => {
                &&& cost != INFINITY
                &&& tour_outline(n as int, start_node as int, path@)
                &&& !(i32::MIN <= cost <= i32::MAX)
                &&& msg@ == cost_out_of_range()
            },
            Err(_) => false,
        },
{
    if cost == INFINITY as i64 {
        return Err(TspError::NoPathFound);
    }
    if n > 1 {
        let len: usize = path.len();
        if len == 0 || len - 1 != n || path[0] != start_node || path[len - 1] != start_node {
            return Err(TspError::NoPathFound);
        }
    }
    if cost < i32::MIN as i64 || cost > i32::MAX as i64 {
        return Err(
            TspError::InternalSolverError(String::from_str("biaya tur di luar jangkauan i32")),
        );
    }
    Ok((cost as i32, path))
}

/// A tour is owed: the input is well formed, a tour is feasible, and the
/// cost of the cheapest is an `i32`.
pub open spec fn tour_owed(g: &Graph, start: usize) -> bool {
    &&& well_formed(g, start)
    &&& exists|u: Seq<int>| #[trigger]
        optimal_tour(weights(g), start as int, u) && route_cost(weights(g), u) >= i32::MIN
}

/// The cheapest tour of `graph` that leaves `start_node`, visits every other
/// node once and returns, with its cost.
///
/// A tour is feasible when none of its legs weighs `INFINITY` and, from its
/// third node on, the cost travelled so far stays below `INFINITY`. Of the
/// feasible tours the answer is the cheapest; of several that cost the same,
/// the one that comes first when they are read from their ends.
///
/// Every outcome comes on its own inputs and on no others: the three faults
/// of the input in the order of `validate`, `NoPathFound` where no tour is
/// feasible, `InternalSolverError` where the cheapest tour costs less than
/// an `i32` can hold, and the tour otherwise. The graph must be small enough
/// for a machine word to hold a set of its nodes.
pub fn solve_tsp_dynamic_programming(graph: Graph, start_node: usize) -> (r: Result<
    (i32, Vec<usize>),
    TspError,
>)
    requires
        well_formed(&graph, start_node) ==> graph@.len() < usize::BITS,
    ensures
        r is Ok <==> tour_owed(&graph, start_node),
        graph@.len() == 0 ==> r matches Err(TspError::EmptyGraph),
        graph@.len() > 0 && !square(weights(&graph)) ==> r matches Err(
            TspError::NonSquareGraph { .. },
        ),
        graph@.len() > 0 && square(weights(&graph)) && start_node >= graph@.len() ==> r matches Err(
            TspError::StartNodeOutOfBounds { .. },
        ),
        well_formed(&graph, start_node) && (forall|u: Seq<int>|
            !feasible_tour(weights(&graph), start_node as int, u)) ==> r matches Err(
            TspError::NoPathFound,
        ),
        match r {
            Ok((cost, path)) => {
                &&& well_formed(&graph, start_node)
                &&& chosen_tour(weights(&graph), start_node as int, nodes(path@))
                &&& cost == route_cost(weights(&graph), nodes(path@))
                &&& cost < INFINITY
            },
            Err(TspError::EmptyGraph) => graph@.len() == 0,
            Err(TspError::NonSquareGraph { rows, cols }) => {
                &&& rows == graph@.len()
                &&& exists|i: int| #[trigger] first_ragged(&graph, i) && cols == graph@[i]@.len()
            },
            Err(TspError::StartNodeOutOfBounds { num_nodes, start_node: s }) => {
                &&& graph@.len() > 0
                &&& square(weights(&graph))
                &&& start_node >= graph@.len()
                &&& num_nodes == graph@.len()
                &&& s == start_node
            },
            Err(TspError::NoPathFound) => {
                &&& well_formed(&graph, start_node)
                &&& forall|u: Seq<int>| !feasible_tour(weights(&graph), start_node as int, u)
            },
            Err(TspError::InternalSolverError(msg)) => {
                &&& well_formed(&graph, start_node)
                &&& exists|u: Seq<int>| #[trigger]
                    optimal_tour(weights(&graph), start_node as int, u) && route_cost(
                        weights(&graph),
                        u,
                    ) < i32::MIN
                &&& msg@ == cost_out_of_range()
            },
        },
{
    let n: usize = graph.len();
    let ghost w = weights(&graph);
    match validate(&graph, start_node) {
        Err(e) => {
            return Err(e);
        },
        Ok(_) => {},
    }
    let mut tsp_solver = TspSolver::new(graph, start_node);
    let (cost, path) = tsp_solver.solve();
    proof {
        if exists|u: Seq<int>| feasible_tour(w, start_node as int, u) {
            let t = nodes(path@);
            lemma_feasible_cost(w, start_node as int, t);
        }
    }
    translate(n, start_node, cost, path)
}

} // verus!
