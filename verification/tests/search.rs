use std::collections::BTreeSet;
use transmute::{Edge, EdgeSet, Graph, Int, Searcher, Variations};

type Row<'a> = (Int, Int, &'a [Int], Int, &'a [Int], Int);

fn set(tags: &[Int]) -> Variations {
    let mut set = BTreeSet::new();
    for tag in tags {
        set.insert(*tag);
    }
    set
}

fn graph(rows: &[Row]) -> Graph {
    let mut graph = Graph::new();
    for (cost, hash_in, var_in, hash_out, var_out, func) in rows {
        graph.add_edge(*cost, *hash_in, set(var_in), *hash_out, set(var_out), *func);
    }
    graph
}

/// Seeds both frontiers for the query, then takes `steps` steps in one
/// direction and hands back what the last step gave.
fn steps(
    query: (Int, &[Int], Int, &[Int]),
    rows: &[Row],
    forward: bool,
    steps: usize,
) -> Option<Vec<Edge>> {
    let graph = graph(rows);
    let hash_var_in = set(query.1);
    let hash_var_out = set(query.3);
    let skip_null = EdgeSet::new();
    let mut searcher =
        Searcher::new(query.0, &hash_var_in, query.2, &hash_var_out, &graph, &skip_null);
    searcher.set_queue_in();
    searcher.set_queue_out();
    let mut result = None;
    for _ in 0..steps {
        result = if forward {
            searcher.search_forward()
        } else {
            searcher.search_backward()
        };
    }
    result
}

#[test]
fn test_forward_one_step() {
    let result = steps((1, &[], 2, &[]), &[(1, 1, &[], 2, &[], 1)], true, 1).unwrap();
    assert_eq!(result[0].hash_func, 1);
}

#[test]
fn test_forward_one_step_variations_in() {
    let result = steps((1, &[1], 2, &[]), &[(1, 1, &[1], 2, &[], 1)], true, 1).unwrap();
    assert_eq!(result[0].hash_func, 1);
}

#[test]
fn test_forward_one_step_variations_out() {
    let result = steps(
        (1, &[], 2, &[1]),
        &[(5, 1, &[], 2, &[1], 1), (1, 1, &[], 2, &[], 2)],
        true,
        2,
    )
    .unwrap();
    assert_eq!(result[0].hash_func, 1);
}

#[test]
fn test_backward_one_step() {
    let result = steps((1, &[], 2, &[]), &[(1, 1, &[], 2, &[], 1)], false, 1).unwrap();
    assert_eq!(result[0].hash_func, 1);
}

#[test]
fn test_backward_one_step_variations_in() {
    let result = steps((1, &[1], 2, &[]), &[(1, 1, &[1], 2, &[], 1)], false, 1).unwrap();
    assert_eq!(result[0].hash_func, 1);
}

#[test]
fn test_backward_one_step_variations_out() {
    let result = steps(
        (1, &[], 2, &[1]),
        &[(5, 1, &[], 2, &[1], 1), (1, 1, &[], 2, &[], 2)],
        false,
        2,
    )
    .unwrap();
    assert_eq!(result[0].hash_func, 1);
}

#[test]
fn test_forward_two_step() {
    let result = steps(
        (1, &[], 3, &[]),
        &[(1, 1, &[], 2, &[], 1), (1, 2, &[], 3, &[], 2)],
        true,
        2,
    )
    .unwrap();
    assert_eq!(result[0].hash_func, 1);
    assert_eq!(result[1].hash_func, 2);
}

#[test]
fn test_backward_two_step() {
    let result = steps(
        (1, &[], 3, &[]),
        &[(1, 1, &[], 2, &[], 1), (1, 2, &[], 3, &[], 2)],
        false,
        2,
    )
    .unwrap();
    assert_eq!(result[0].hash_func, 1);
    assert_eq!(result[1].hash_func, 2);
}

#[test]
fn test_forward_cheapest() {
    let result = steps(
        (1, &[], 3, &[]),
        &[(1, 1, &[], 2, &[], 1), (2, 2, &[], 3, &[], 2), (1, 2, &[], 3, &[], 3)],
        true,
        2,
    )
    .unwrap();
    assert_eq!(result[0].hash_func, 1);
    assert_eq!(result[1].hash_func, 3);
}

#[test]
fn test_forward_cheapest_variations_in() {
    let result = steps(
        (1, &[1], 3, &[]),
        &[(1, 1, &[], 2, &[], 1), (1, 2, &[1], 3, &[], 2), (1, 2, &[], 3, &[], 3)],
        true,
        2,
    )
    .unwrap();
    assert_eq!(result[0].hash_func, 1);
    assert_eq!(result[1].hash_func, 2);
}

#[test]
fn test_backward_cheapest() {
    let result = steps(
        (1, &[], 3, &[]),
        &[(1, 1, &[], 2, &[], 1), (2, 2, &[], 3, &[], 2), (1, 2, &[], 3, &[], 3)],
        false,
        2,
    )
    .unwrap();
    assert_eq!(result[0].hash_func, 1);
    assert_eq!(result[1].hash_func, 3);
}

#[test]
fn test_backward_cheapest_variations_in() {
    let result = steps(
        (1, &[1], 3, &[]),
        &[(1, 1, &[], 2, &[], 1), (2, 2, &[1], 3, &[], 2), (2, 2, &[], 3, &[], 3)],
        false,
        2,
    )
    .unwrap();
    assert_eq!(result[0].hash_func, 1);
    assert_eq!(result[1].hash_func, 2);
}
