use graph_distances::aggregate::{assemble_distance_lists, get_distance_lists, AggregateError};
use graph_distances::distance::dijkstra;
use graph_distances::graph::{neighbors, UNREACHABLE};
use graph_distances::statistics::{calculate_average_distance, StatsError};

fn triangle() -> Vec<Vec<u32>> {
    vec![vec![0, 1, 2], vec![1, 0, 3], vec![2, 3, 0]]
}

#[test]
fn test_dijkstra() {
    let graph = vec![vec![0, 1, 2], vec![1, 0, 3], vec![2, 3, 0]];
    let result = dijkstra(&graph, 0);
    assert_eq!(result, vec![0, 1, 2]);
}

#[test]
fn test_distance_list() {
    let result = get_distance_lists(&vec![vec![0, 1, 2], vec![1, 0, 3], vec![2, 3, 0]], vec![0, 1, 2]);
    assert_eq!(result, vec![vec![0, 1, 2], vec![1, 0, 3], vec![2, 3, 0]]);
}

#[test]
fn test_average_distance() {
    let distance_lists = vec![vec![0, 1, 2], vec![1, 0, 3], vec![2, 3, 0]];
    let result = calculate_average_distance(distance_lists).unwrap();
    assert_eq!(result.total, 12);
    assert_eq!(result.pairs, 3);
    assert_eq!(result.total as f64 / result.pairs as f64, 4.0);
}

#[test]
fn dijkstra_prefers_longer_path_of_less_weight() {
    // 0 -(10)- 1 directly, or 0 -(1)- 2 -(2)- 1.
    let graph = vec![vec![0, 10, 1], vec![10, 0, 2], vec![1, 2, 0]];
    assert_eq!(dijkstra(&graph, 0), vec![0, 3, 1]);
    assert_eq!(dijkstra(&graph, 1), vec![3, 0, 2]);
}

#[test]
fn isolated_node_is_unreachable_and_left_out_of_average() {
    let graph = vec![
        vec![0, 1, 2, 0],
        vec![1, 0, 3, 0],
        vec![2, 3, 0, 0],
        vec![0, 0, 0, 0],
    ];
    let lists = get_distance_lists(&graph, vec![0, 1, 2]);
    for list in &lists {
        assert_eq!(list[3], UNREACHABLE);
    }
    assert_eq!(dijkstra(&graph, 3), vec![UNREACHABLE, UNREACHABLE, UNREACHABLE, 0]);
    let average = calculate_average_distance(lists).unwrap();
    assert_eq!(average.total, 12);
    assert_eq!(average.pairs, 3);
}

#[test]
fn aggregate_matches_sequential_runs() {
    let graph = vec![
        vec![0, 4, 0, 1],
        vec![4, 0, 2, 0],
        vec![0, 2, 0, 7],
        vec![1, 0, 7, 0],
    ];
    let sample = vec![2, 0, 3];
    let lists = get_distance_lists(&graph, sample.clone());
    assert_eq!(lists.len(), sample.len());
    for (i, source) in sample.iter().enumerate() {
        assert_eq!(lists[i], dijkstra(&graph, *source));
    }
    assert_eq!(lists[0], vec![6, 2, 0, 7]);
}

#[test]
fn triangle_inequality_holds_on_every_edge() {
    let graph = vec![
        vec![0, 5, 9, 0, 1],
        vec![5, 0, 2, 6, 0],
        vec![9, 2, 0, 3, 0],
        vec![0, 6, 3, 0, 8],
        vec![1, 0, 0, 8, 0],
    ];
    for s in 0..graph.len() {
        let d = dijkstra(&graph, s);
        for u in 0..graph.len() {
            for v in 0..graph.len() {
                if graph[u][v] != 0 {
                    assert!(d[v] <= d[u].saturating_add(graph[u][v]));
                }
            }
        }
    }
}

#[test]
fn distances_past_the_sentinel_saturate() {
    let big = u32::MAX - 1;
    let graph = vec![vec![0, big, 0], vec![big, 0, 5], vec![0, 5, 0]];
    assert_eq!(dijkstra(&graph, 0), vec![0, big, UNREACHABLE]);
}

#[test]
fn average_of_fewer_than_two_lists_fails() {
    assert_eq!(calculate_average_distance(vec![]), Err(StatsError::EmptyInput));
    assert_eq!(calculate_average_distance(vec![vec![0, 1]]), Err(StatsError::EmptyInput));
}

#[test]
fn average_skips_unreachable_entries() {
    let lists = vec![vec![0, UNREACHABLE, 4], vec![UNREACHABLE, 0, 6], vec![4, 6, 0], vec![1, 1, 1]];
    let average = calculate_average_distance(lists).unwrap();
    assert_eq!(average.total, 23);
    assert_eq!(average.pairs, 6);
}

#[test]
fn triangle_from_every_source() {
    let graph = triangle();
    assert_eq!(dijkstra(&graph, 1), vec![1, 0, 3]);
    assert_eq!(dijkstra(&graph, 2), vec![2, 3, 0]);
}

#[test]
fn assembles_worker_results_in_sample_order() {
    let finished = vec![(2, vec![2, 3, 0]), (0, vec![0, 1, 2]), (1, vec![1, 0, 3])];
    assert_eq!(
        assemble_distance_lists(3, finished),
        Ok(vec![vec![0, 1, 2], vec![1, 0, 3], vec![2, 3, 0]])
    );
    let missing = vec![(0, vec![0]), (2, vec![1])];
    assert_eq!(assemble_distance_lists(3, missing), Err(AggregateError::WorkerFailure));
    let repeated = vec![(0, vec![0]), (0, vec![0]), (1, vec![1])];
    assert_eq!(assemble_distance_lists(2, repeated), Err(AggregateError::WorkerFailure));
    let stray = vec![(0, vec![0]), (5, vec![1])];
    assert_eq!(assemble_distance_lists(1, stray), Err(AggregateError::WorkerFailure));
    assert_eq!(assemble_distance_lists(0, vec![]), Ok(vec![]));
}

#[test]
fn neighbors_skip_absent_edges() {
    let graph = vec![vec![0, 4, 0, 1], vec![4, 0, 2, 0], vec![0, 2, 0, 0], vec![1, 0, 0, 0]];
    assert_eq!(neighbors(&graph, 0), vec![(1, 4), (3, 1)]);
    assert_eq!(neighbors(&graph, 2), vec![(1, 2)]);
    assert_eq!(neighbors(&vec![vec![0]], 0), vec![]);
}

#[test]
fn unreachable_entries_leave_the_average_unchanged() {
    let lists = vec![vec![0, 1, 2], vec![1, 0, 3], vec![2, 3, 0]];
    let padded = vec![
        vec![0, UNREACHABLE, 1, 2],
        vec![UNREACHABLE, 1, 0, 3, UNREACHABLE],
        vec![2, 3, 0],
    ];
    assert_eq!(calculate_average_distance(lists), calculate_average_distance(padded));
}

#[test]
fn full_sample_takes_every_node() {
    let nodes: Vec<usize> = (0..20).collect();
    let mut sample = graph_distances::sampling::select_random_sample(&nodes, 20).unwrap();
    sample.sort();
    assert_eq!(sample, nodes);
}
