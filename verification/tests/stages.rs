use solver::solver::{best_arrival, blank_table, expand, retrace, seed};
use solver::table::{Arrival, Memo};
use solver::{Graph, INFINITY};

fn directed() -> Graph {
    vec![vec![0, 10, 40], vec![12, 0, 15], vec![25, 18, 0]]
}

fn filled(graph: &Graph, start: usize) -> Memo {
    let mut table = blank_table(graph.len());
    seed(&mut table, graph, start);
    expand(&mut table, graph, start);
    table
}

fn entries(table: &Memo) -> usize {
    table
        .iter()
        .map(|row| row.iter().filter(|entry| entry.is_some()).count())
        .sum()
}

#[test]
fn blank_table_has_a_row_for_every_set() {
    let table = blank_table(3);
    assert_eq!(table.len(), 8);
    for row in &table {
        assert_eq!(row, &vec![None, None, None]);
    }
    assert_eq!(blank_table(0), vec![Vec::<Option<Arrival>>::new()]);
}

#[test]
fn seed_records_the_legs_from_the_start() {
    let graph = directed();
    let mut table = blank_table(3);
    seed(&mut table, &graph, 0);
    assert_eq!(table[0b011][1], Some(Arrival { cost: 10, prev: 0 }));
    assert_eq!(table[0b101][2], Some(Arrival { cost: 40, prev: 0 }));
    assert_eq!(entries(&table), 2);

    let mut table = blank_table(3);
    seed(&mut table, &graph, 2);
    assert_eq!(table[0b101][0], Some(Arrival { cost: 25, prev: 2 }));
    assert_eq!(table[0b110][1], Some(Arrival { cost: 18, prev: 2 }));
    assert_eq!(entries(&table), 2);
}

#[test]
fn seed_leaves_out_missing_legs() {
    let graph = vec![vec![0, INFINITY, 4], vec![1, 0, 1], vec![1, 1, 0]];
    let mut table = blank_table(3);
    seed(&mut table, &graph, 0);
    assert_eq!(table[0b011][1], None);
    assert_eq!(table[0b101][2], Some(Arrival { cost: 4, prev: 0 }));
    assert_eq!(entries(&table), 1);
}

#[test]
fn expand_settles_the_larger_sets() {
    let graph = directed();
    let table = filled(&graph, 0);
    assert_eq!(table[0b011][1], Some(Arrival { cost: 10, prev: 0 }));
    assert_eq!(table[0b101][2], Some(Arrival { cost: 40, prev: 0 }));
    assert_eq!(table[0b111][1], Some(Arrival { cost: 58, prev: 2 }));
    assert_eq!(table[0b111][2], Some(Arrival { cost: 25, prev: 1 }));
    assert_eq!(entries(&table), 4);
}

#[test]
fn expand_records_only_states() {
    let graph = vec![
        vec![0, 2, 9, 10],
        vec![1, 0, 6, 4],
        vec![15, 7, 0, 8],
        vec![6, 3, 12, 0],
    ];
    let start = 2;
    let table = filled(&graph, start);
    for mask in 0..16usize {
        for node in 0..4usize {
            let state = node != start && mask & (1 << start) != 0 && mask & (1 << node) != 0;
            assert_eq!(table[mask][node].is_some(), state);
        }
    }
    assert_eq!(table[0b0111][0], Some(Arrival { cost: 8, prev: 1 }));
    assert_eq!(table[0b1110][3], Some(Arrival { cost: 11, prev: 1 }));
    assert_eq!(table[0b1111][0], Some(Arrival { cost: 12, prev: 1 }));
    assert_eq!(table[0b1111][1], Some(Arrival { cost: 16, prev: 0 }));
    assert_eq!(table[0b1111][3], Some(Arrival { cost: 18, prev: 0 }));
}

#[test]
fn expand_takes_the_lower_node_among_equals() {
    let graph = vec![
        vec![0, 1, 1, 1],
        vec![1, 0, 1, 1],
        vec![1, 1, 0, 1],
        vec![1, 1, 1, 0],
    ];
    let table = filled(&graph, 0);
    assert_eq!(table[0b1111][1], Some(Arrival { cost: 3, prev: 2 }));
    assert_eq!(table[0b1111][2], Some(Arrival { cost: 3, prev: 1 }));
    assert_eq!(table[0b1111][3], Some(Arrival { cost: 3, prev: 1 }));
}

#[test]
fn expand_leaves_out_what_costs_the_sentinel_or_more() {
    let graph = vec![
        vec![0, INFINITY - 5, 3],
        vec![1, 0, 5],
        vec![1, INFINITY, 0],
    ];
    let table = filled(&graph, 0);
    assert_eq!(table[0b011][1], Some(Arrival { cost: (INFINITY - 5) as i64, prev: 0 }));
    assert_eq!(table[0b111][2], None);
    assert_eq!(table[0b111][1], None);
}

#[test]
fn best_arrival_closes_the_tour() {
    let graph = directed();
    let table = filled(&graph, 0);
    assert_eq!(
        best_arrival(&table, &graph, 0, 0b111, 0),
        Some(Arrival { cost: 50, prev: 2 })
    );
    assert_eq!(
        best_arrival(&table, &graph, 0, 0b011, 2),
        Some(Arrival { cost: 25, prev: 1 })
    );
}

#[test]
fn best_arrival_finds_nothing_without_a_way() {
    let graph = vec![vec![0, 1, INFINITY], vec![1, 0, 1], vec![INFINITY, 1, 0]];
    let table = filled(&graph, 0);
    assert_eq!(table[0b111][2], Some(Arrival { cost: 2, prev: 1 }));
    assert_eq!(table[0b111][1], None);
    assert_eq!(best_arrival(&table, &graph, 0, 0b111, 0), None);
}

#[test]
fn retrace_reads_the_tour_back() {
    let graph = directed();
    let table = filled(&graph, 0);
    assert_eq!(retrace(&table, &graph, 0, 2), Some(vec![0, 1, 2, 0]));
    assert_eq!(retrace(&table, &graph, 0, 1), Some(vec![0, 2, 1, 0]));
    let pair = vec![vec![0, 10], vec![12, 0]];
    let table = filled(&pair, 1);
    assert_eq!(retrace(&table, &pair, 1, 0), Some(vec![1, 0, 1]));
}
