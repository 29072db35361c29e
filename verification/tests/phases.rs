use tsp_stima::common::INF;
use tsp_stima::solver::TspSolver;

fn ring() -> Vec<Vec<i32>> {
    vec![
        vec![INF, 1, 9, 9],
        vec![9, INF, 1, 9],
        vec![9, 9, INF, 1],
        vec![1, 9, 9, INF],
    ]
}

#[test]
fn solver_runs_from_another_start_node() {
    let graph = ring();
    let mut solver = TspSolver::new(&graph, 2);
    assert_eq!(solver.solve(), Some((4, vec![2, 3, 0, 1, 2])));
}

#[test]
fn solver_from_last_node_of_symmetric_graph() {
    let graph = vec![
        vec![INF, 10, 15, 20],
        vec![10, INF, 35, 25],
        vec![15, 35, INF, 30],
        vec![20, 25, 30, INF],
    ];
    let mut solver = TspSolver::new(&graph, 3);
    assert_eq!(solver.solve(), Some((80, vec![3, 2, 0, 1, 3])));
}

#[test]
fn phases_can_be_run_one_by_one() {
    let graph = ring();
    let mut solver = TspSolver::new(&graph, 0);
    solver.compute_dp_tables();
    let full = (1usize << 4) - 1;
    assert_eq!(solver.find_minimum_tour_details(full), Some((4, 3)));
    assert_eq!(solver.reconstruct_tour(3, full), vec![0, 1, 2, 3, 0]);
}

#[test]
fn closing_search_before_the_fill_finds_nothing() {
    let graph = ring();
    let solver = TspSolver::new(&graph, 0);
    let full = (1usize << 4) - 1;
    assert_eq!(solver.find_minimum_tour_details(full), None);
}

#[test]
fn closing_search_on_the_start_state_closes_by_the_loop() {
    let graph = vec![vec![7, 1], vec![1, INF]];
    let solver = TspSolver::new(&graph, 0);
    assert_eq!(solver.find_minimum_tour_details(1), Some((7, 0)));
    assert_eq!(solver.find_minimum_tour_details(2), None);
}

#[test]
fn closing_search_takes_the_first_of_equal_nodes() {
    let graph = vec![vec![INF, 2, 2], vec![2, INF, 2], vec![2, 2, INF]];
    let mut solver = TspSolver::new(&graph, 0);
    solver.compute_dp_tables();
    assert_eq!(solver.find_minimum_tour_details(7), Some((6, 1)));
}

#[test]
fn reconstruction_stops_at_the_start_state() {
    let graph = ring();
    let mut solver = TspSolver::new(&graph, 0);
    solver.compute_dp_tables();
    assert_eq!(solver.reconstruct_tour(0, 1), vec![0, 0]);
    assert_eq!(solver.reconstruct_tour(1, 3), vec![0, 1, 0]);
}

#[test]
fn reconstruction_reads_at_most_one_node_per_node() {
    let graph = ring();
    let solver = TspSolver::new(&graph, 0);
    let full = (1usize << 4) - 1;
    let path = solver.reconstruct_tour(3, full);
    assert_eq!(path.len(), 5);
    assert_eq!(path, vec![0, 0, 0, 3, 0]);
}
