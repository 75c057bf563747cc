use solver::{
    solve_tsp_dynamic_programming, translate, validate, Graph, TspError, TspSolver, INFINITY,
};

fn run(graph: Graph, start: usize) -> (i64, Vec<usize>) {
    assert!(graph.len() < usize::BITS as usize);
    assert!(graph.iter().all(|row| row.len() == graph.len()));
    assert!(graph.is_empty() || start < graph.len());
    let mut search = TspSolver::new(graph, start);
    search.solve()
}

#[test]
fn sentinel_is_half_the_largest_i32() {
    assert_eq!(INFINITY, i32::MAX / 2);
    assert_eq!(INFINITY, 1_073_741_823);
}

#[test]
fn engine_over_no_nodes_gives_no_cost_and_no_tour() {
    assert_eq!(run(Vec::new(), 0), (0, vec![]));
}

#[test]
fn engine_over_one_node_stays_at_the_start() {
    assert_eq!(run(vec![vec![7]], 0), (0, vec![0, 0]));
    assert_eq!(run(vec![vec![INFINITY]], 0), (0, vec![0, 0]));
}

#[test]
fn engine_gives_cost_and_tour() {
    let graph = vec![vec![0, 10, 40], vec![12, 0, 15], vec![25, 18, 0]];
    assert_eq!(run(graph, 0), (50, vec![0, 1, 2, 0]));
}

#[test]
fn engine_signals_no_tour_by_the_sentinel() {
    let graph = vec![vec![0, 1, INFINITY], vec![1, 0, 1], vec![INFINITY, 1, 0]];
    assert_eq!(run(graph, 0), (INFINITY as i64, vec![]));
}

#[test]
fn engine_can_run_twice() {
    let graph = vec![vec![0, 10], vec![12, 0]];
    let mut search = TspSolver::new(graph, 1);
    assert_eq!(search.solve(), (22, vec![1, 0, 1]));
    assert_eq!(search.solve(), (22, vec![1, 0, 1]));
}

#[test]
fn equal_costs_take_the_lower_node_last() {
    let graph = vec![
        vec![0, 10, 15, 20],
        vec![10, 0, 35, 25],
        vec![15, 35, 0, 30],
        vec![20, 25, 30, 0],
    ];
    assert_eq!(
        solve_tsp_dynamic_programming(graph.clone(), 0),
        Ok((80, vec![0, 2, 3, 1, 0]))
    );
    assert_eq!(
        solve_tsp_dynamic_programming(graph, 1),
        Ok((80, vec![1, 3, 2, 0, 1]))
    );
    let flat = vec![
        vec![0, 1, 1, 1],
        vec![1, 0, 1, 1],
        vec![1, 1, 0, 1],
        vec![1, 1, 1, 0],
    ];
    assert_eq!(
        solve_tsp_dynamic_programming(flat, 3),
        Ok((4, vec![3, 2, 1, 0, 3]))
    );
}

#[test]
fn diagonal_is_never_read() {
    let graph = vec![
        vec![INFINITY, 10, 40],
        vec![12, -5, 15],
        vec![25, 18, i32::MAX],
    ];
    assert_eq!(
        solve_tsp_dynamic_programming(graph, 0),
        Ok((50, vec![0, 1, 2, 0]))
    );
}

#[test]
fn a_tour_as_dear_as_the_sentinel_is_no_tour() {
    let graph = vec![vec![0, INFINITY - 1], vec![1, 0]];
    assert_eq!(
        solve_tsp_dynamic_programming(graph, 0),
        Err(TspError::NoPathFound)
    );
    let graph = vec![vec![0, INFINITY - 2], vec![1, 0]];
    assert_eq!(
        solve_tsp_dynamic_programming(graph, 0),
        Ok((INFINITY - 1, vec![0, 1, 0]))
    );
}

#[test]
fn a_part_as_dear_as_the_sentinel_blocks_the_way() {
    let graph = vec![
        vec![0, INFINITY - 1, 5],
        vec![7, 0, 1],
        vec![-10, 3, 0],
    ];
    assert_eq!(
        solve_tsp_dynamic_programming(graph, 0),
        Ok((15, vec![0, 2, 1, 0]))
    );
    let graph = vec![
        vec![0, INFINITY - 1, INFINITY],
        vec![7, 0, 1],
        vec![-10, 3, 0],
    ];
    assert_eq!(
        solve_tsp_dynamic_programming(graph, 0),
        Err(TspError::NoPathFound)
    );
}

#[test]
fn a_weight_above_the_sentinel_is_a_leg() {
    let graph = vec![vec![0, INFINITY + 5], vec![-10, 0]];
    assert_eq!(
        solve_tsp_dynamic_programming(graph, 0),
        Ok((INFINITY - 5, vec![0, 1, 0]))
    );
}

#[test]
fn negative_weights_add_up() {
    let graph = vec![vec![0, -3, 4], vec![2, 0, -6], vec![-1, 5, 0]];
    assert_eq!(
        solve_tsp_dynamic_programming(graph, 0),
        Ok((-10, vec![0, 1, 2, 0]))
    );
}

#[test]
fn a_cost_below_i32_is_an_internal_error() {
    let graph = vec![vec![0, i32::MIN], vec![i32::MIN, 0]];
    assert_eq!(run(graph.clone(), 0), (2 * (i32::MIN as i64), vec![0, 1, 0]));
    match solve_tsp_dynamic_programming(graph, 0) {
        Err(TspError::InternalSolverError(msg)) => {
            assert_eq!(msg, "biaya tur di luar jangkauan i32")
        }
        other => panic!("{:?}", other),
    }
    let graph = vec![vec![0, i32::MIN], vec![0, 0]];
    assert_eq!(
        solve_tsp_dynamic_programming(graph, 0),
        Ok((i32::MIN, vec![0, 1, 0]))
    );
}

#[test]
fn validate_accepts_a_square_matrix_and_a_node() {
    assert_eq!(validate(&vec![vec![0]], 0), Ok(()));
    assert_eq!(validate(&vec![vec![0, 1], vec![1, 0]], 1), Ok(()));
}

#[test]
fn validate_reports_in_order() {
    let empty: Graph = Vec::new();
    assert_eq!(validate(&empty, 5), Err(TspError::EmptyGraph));
    assert_eq!(
        validate(&vec![vec![0, 1], vec![2]], 9),
        Err(TspError::NonSquareGraph { rows: 2, cols: 1 })
    );
    assert_eq!(
        validate(&vec![vec![0, 1, 2], vec![0, 1], vec![]], 0),
        Err(TspError::NonSquareGraph { rows: 3, cols: 2 })
    );
    assert_eq!(
        validate(&vec![vec![0, 1, 2]], 0),
        Err(TspError::NonSquareGraph { rows: 1, cols: 3 })
    );
    assert_eq!(
        validate(&vec![vec![0, 1], vec![1, 0]], 2),
        Err(TspError::StartNodeOutOfBounds { num_nodes: 2, start_node: 2 })
    );
}

#[test]
fn jagged_matrix_is_reported_before_the_start() {
    assert_eq!(
        solve_tsp_dynamic_programming(vec![vec![0, 1], vec![2]], 7),
        Err(TspError::NonSquareGraph { rows: 2, cols: 1 })
    );
}

#[test]
fn translate_hands_a_tour_on() {
    assert_eq!(translate(3, 0, 50, vec![0, 1, 2, 0]), Ok((50, vec![0, 1, 2, 0])));
    assert_eq!(translate(1, 0, 0, vec![0, 0]), Ok((0, vec![0, 0])));
    assert_eq!(translate(1, 0, 4, vec![]), Ok((4, vec![])));
    assert_eq!(translate(0, 0, 0, vec![]), Ok((0, vec![])));
}

#[test]
fn translate_reads_the_sentinel() {
    assert_eq!(
        translate(3, 0, INFINITY as i64, vec![0, 1, 2, 0]),
        Err(TspError::NoPathFound)
    );
    assert_eq!(translate(1, 0, INFINITY as i64, vec![0, 0]), Err(TspError::NoPathFound));
}

#[test]
fn translate_checks_the_outline() {
    assert_eq!(translate(3, 0, 50, vec![]), Err(TspError::NoPathFound));
    assert_eq!(translate(3, 0, 50, vec![0, 1, 0]), Err(TspError::NoPathFound));
    assert_eq!(translate(3, 0, 50, vec![0, 1, 2, 1, 0]), Err(TspError::NoPathFound));
    assert_eq!(translate(3, 0, 50, vec![1, 1, 2, 0]), Err(TspError::NoPathFound));
    assert_eq!(translate(3, 0, 50, vec![0, 1, 2, 1]), Err(TspError::NoPathFound));
    assert_eq!(translate(usize::MAX, 0, 50, vec![0, 0]), Err(TspError::NoPathFound));
}

#[test]
fn translate_refuses_a_cost_that_is_no_i32() {
    let said = String::from("biaya tur di luar jangkauan i32");
    assert_eq!(
        translate(2, 0, i32::MIN as i64 - 1, vec![0, 1, 0]),
        Err(TspError::InternalSolverError(said.clone()))
    );
    assert_eq!(
        translate(2, 0, i32::MAX as i64 + 1, vec![0, 1, 0]),
        Err(TspError::InternalSolverError(said))
    );
    assert_eq!(
        translate(2, 0, i32::MIN as i64, vec![0, 1, 0]),
        Ok((i32::MIN, vec![0, 1, 0]))
    );
    assert_eq!(
        translate(2, 0, i32::MAX as i64, vec![0, 1, 0]),
        Ok((i32::MAX, vec![0, 1, 0]))
    );
}
