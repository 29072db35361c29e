use tsp_stima::common::INF;
use tsp_stima::solve_tsp_dynamic_programming;

fn cost_along(graph: &Vec<Vec<i32>>, path: &Vec<usize>) -> i32 {
    let mut total = 0;
    for k in 0..path.len() - 1 {
        assert_ne!(graph[path[k]][path[k + 1]], INF);
        total += graph[path[k]][path[k + 1]];
    }
    total
}

fn assert_closed_tour(graph: &Vec<Vec<i32>>, start: usize, path: &Vec<usize>) {
    let n = graph.len();
    assert_eq!(path.len(), n + 1);
    assert_eq!(path[0], start);
    assert_eq!(path[n], start);
    let mut seen = vec![false; n];
    for k in 0..n {
        assert!(path[k] < n);
        assert!(!seen[path[k]]);
        seen[path[k]] = true;
    }
    assert!(seen.iter().all(|&b| b));
}

fn four_nodes() -> Vec<Vec<i32>> {
    vec![
        vec![INF, 10, 15, 20],
        vec![10, INF, 35, 25],
        vec![15, 35, INF, 30],
        vec![20, 25, 30, INF],
    ]
}

fn five_nodes() -> Vec<Vec<i32>> {
    vec![
        vec![INF, 2, INF, 6, INF],
        vec![2, INF, 3, 8, 5],
        vec![INF, 3, INF, INF, 7],
        vec![6, 8, INF, INF, 9],
        vec![INF, 5, 7, 9, INF],
    ]
}

fn six_nodes() -> Vec<Vec<i32>> {
    vec![
        vec![INF, 14, 4, 17, 7, 20],
        vec![8, INF, 11, 1, 14, 4],
        vec![15, 5, INF, 8, 21, 11],
        vec![22, 12, 2, INF, 5, 18],
        vec![6, 19, 9, 22, INF, 2],
        vec![13, 3, 16, 6, 19, INF],
    ]
}

#[test]
fn sentinel_is_half_of_the_largest_i32() {
    assert_eq!(INF, i32::MAX / 2);
    assert!(INF.checked_add(INF).is_some());
}

#[test]
fn symmetric_four_node_graph_costs_80() {
    let graph = four_nodes();
    let (cost, path) = solve_tsp_dynamic_programming(&graph).unwrap();
    assert_eq!(cost, 80);
    assert_eq!(path, vec![0, 2, 3, 1, 0]);
    assert_eq!(cost_along(&graph, &path), 80);
}

#[test]
fn sparse_five_node_graph_costs_27() {
    let graph = five_nodes();
    let (cost, path) = solve_tsp_dynamic_programming(&graph).unwrap();
    assert_eq!(cost, 27);
    assert_eq!(path, vec![0, 3, 4, 2, 1, 0]);
}

#[test]
fn asymmetric_six_node_graph_costs_30() {
    let graph = six_nodes();
    let (cost, path) = solve_tsp_dynamic_programming(&graph).unwrap();
    assert_eq!(cost, 30);
    assert_eq!(path, vec![0, 4, 5, 3, 2, 1, 0]);
}

#[test]
fn cost_is_the_sum_along_the_path_in_complete_graphs() {
    for graph in [four_nodes(), six_nodes()] {
        let (cost, path) = solve_tsp_dynamic_programming(&graph).unwrap();
        assert_eq!(cost, cost_along(&graph, &path));
    }
}

#[test]
fn path_is_a_closed_tour_over_every_node() {
    for graph in [four_nodes(), five_nodes(), six_nodes()] {
        let (_, path) = solve_tsp_dynamic_programming(&graph).unwrap();
        assert_closed_tour(&graph, 0, &path);
    }
}

#[test]
fn no_tour_is_cheaper_than_the_returned_one() {
    let graph = six_nodes();
    let (cost, _) = solve_tsp_dynamic_programming(&graph).unwrap();
    let mut order = vec![1usize, 2, 3, 4, 5];
    let mut stack = vec![0usize; order.len()];
    let mut least = i64::MAX;
    let mut i = 0;
    let measure = |order: &Vec<usize>| -> i64 {
        let mut total = graph[0][order[0]] as i64;
        for k in 0..order.len() - 1 {
            total += graph[order[k]][order[k + 1]] as i64;
        }
        total + graph[order[order.len() - 1]][0] as i64
    };
    least = least.min(measure(&order));
    while i < order.len() {
        if stack[i] < i {
            if i % 2 == 0 {
                order.swap(0, i);
            } else {
                order.swap(stack[i], i);
            }
            least = least.min(measure(&order));
            stack[i] += 1;
            i = 0;
        } else {
            stack[i] = 0;
            i += 1;
        }
    }
    assert_eq!(cost as i64, least);
}

#[test]
fn start_node_without_outgoing_edges_has_no_tour() {
    let graph = vec![vec![INF, INF, INF], vec![1, INF, 1], vec![1, 1, INF]];
    assert_eq!(solve_tsp_dynamic_programming(&graph), None);
}

#[test]
fn unreachable_node_has_no_tour() {
    let graph = vec![vec![INF, 1, INF], vec![1, INF, INF], vec![1, 1, INF]];
    assert_eq!(solve_tsp_dynamic_programming(&graph), None);
}

#[test]
fn missing_closing_edge_has_no_tour() {
    let graph = vec![vec![INF, 1, INF], vec![INF, INF, 1], vec![INF, INF, INF]];
    assert_eq!(solve_tsp_dynamic_programming(&graph), None);
}

#[test]
fn one_way_ring_is_followed() {
    let graph = vec![vec![INF, 5, INF], vec![INF, INF, 7], vec![11, INF, INF]];
    assert_eq!(solve_tsp_dynamic_programming(&graph), Some((23, vec![0, 1, 2, 0])));
}

#[test]
fn solving_twice_gives_the_same_answer() {
    for graph in [four_nodes(), five_nodes(), six_nodes()] {
        let first = solve_tsp_dynamic_programming(&graph);
        let second = solve_tsp_dynamic_programming(&graph);
        assert_eq!(first, second);
    }
}

#[test]
fn single_node_with_free_loop_costs_nothing() {
    let graph = vec![vec![0]];
    assert_eq!(solve_tsp_dynamic_programming(&graph), Some((0, vec![0, 0])));
}

#[test]
fn single_node_with_priced_loop_costs_the_loop() {
    let graph = vec![vec![5]];
    assert_eq!(solve_tsp_dynamic_programming(&graph), Some((5, vec![0, 0])));
}

#[test]
fn single_node_without_loop_has_no_tour() {
    let graph = vec![vec![INF]];
    assert_eq!(solve_tsp_dynamic_programming(&graph), None);
}

#[test]
fn empty_graph_has_no_tour() {
    let graph: Vec<Vec<i32>> = Vec::new();
    assert_eq!(solve_tsp_dynamic_programming(&graph), None);
}

#[test]
fn two_nodes_go_there_and_back() {
    let graph = vec![vec![INF, 3], vec![4, INF]];
    assert_eq!(solve_tsp_dynamic_programming(&graph), Some((7, vec![0, 1, 0])));
}

#[test]
fn equal_tours_are_told_apart_by_the_first_closing_node() {
    let graph = vec![vec![INF, 1, 1], vec![1, INF, 1], vec![1, 1, INF]];
    assert_eq!(solve_tsp_dynamic_programming(&graph), Some((3, vec![0, 2, 1, 0])));
    let graph = vec![vec![0; 4]; 4];
    assert_eq!(solve_tsp_dynamic_programming(&graph), Some((0, vec![0, 3, 2, 1, 0])));
}
