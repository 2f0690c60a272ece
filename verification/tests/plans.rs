use std::collections::BTreeSet;
use transmute::{Edge, EdgeSet, Graph, Int, Searcher, Variations};

type Row<'a> = (Int, Int, &'a [Int], Int, &'a [Int], Int);

fn tags(items: &[Int]) -> Variations {
    let mut set = BTreeSet::new();
    for item in items {
        set.insert(*item);
    }
    set
}

fn store(rows: &[Row]) -> Graph {
    let mut graph = Graph::new();
    for (cost, hash_in, var_in, hash_out, var_out, func) in rows {
        graph.add_edge(*cost, *hash_in, tags(var_in), *hash_out, tags(var_out), *func);
    }
    graph
}

fn plan(graph: &Graph, hash_in: Int, have: &[Int], hash_out: Int, want: &[Int]) -> Option<Vec<Int>> {
    let skip = EdgeSet::new();
    graph
        .search(hash_in, &tags(have), hash_out, &tags(want), &skip)
        .map(|path| path.iter().map(|edge| edge.hash_func).collect())
}

/// Whether the plan leads from `hash_in` to `hash_out`, step by step.
fn connects(path: &[Edge], hash_in: Int, hash_out: Int) -> bool {
    !path.is_empty()
        && path[0].hash_in == hash_in
        && path[path.len() - 1].hash_out == hash_out
        && path.windows(2).all(|pair| pair[0].hash_out == pair[1].hash_in)
}

/// Whether every step finds its tags and the plan ends with `want`.
fn provides(path: &[Edge], have: &Variations, want: &Variations) -> bool {
    let mut carried = have.clone();
    for edge in path {
        if !edge.hash_var_in.is_subset(&carried) {
            return false;
        }
        carried = &(&carried - &edge.hash_var_in) | &edge.hash_var_out;
    }
    want.is_subset(&carried)
}

#[test]
fn test_single_edge() {
    let graph = store(&[(1, 1, &[], 2, &[], 1)]);
    assert_eq!(plan(&graph, 1, &[], 2, &[]), Some(vec![1]));
}

#[test]
fn test_two_step_chain() {
    let graph = store(&[(1, 1, &[], 2, &[], 1), (1, 2, &[], 3, &[], 2)]);
    assert_eq!(plan(&graph, 1, &[], 3, &[]), Some(vec![1, 2]));
}

#[test]
fn test_cheapest_among_alternatives() {
    let graph = store(&[(1, 1, &[], 2, &[], 1), (2, 2, &[], 3, &[], 2), (1, 2, &[], 3, &[], 3)]);
    assert_eq!(plan(&graph, 1, &[], 3, &[]), Some(vec![1, 3]));
}

#[test]
fn test_tag_gated_branch_with_tag() {
    let graph = store(&[(1, 1, &[], 2, &[], 1), (1, 2, &[10], 3, &[], 2), (5, 2, &[], 3, &[], 3)]);
    assert_eq!(plan(&graph, 1, &[10], 3, &[]), Some(vec![1, 2]));
}

#[test]
fn test_tag_gated_branch_without_tag() {
    let graph = store(&[(1, 1, &[], 2, &[], 1), (1, 2, &[10], 3, &[], 2), (5, 2, &[], 3, &[], 3)]);
    assert_eq!(plan(&graph, 1, &[], 3, &[]), Some(vec![1, 3]));
}

#[test]
fn test_requested_output_tag() {
    let graph = store(&[(5, 1, &[], 2, &[20], 1), (1, 1, &[], 2, &[], 2)]);
    assert_eq!(plan(&graph, 1, &[], 2, &[20]), Some(vec![1]));
}

#[test]
fn test_empty_graph_has_no_plan() {
    let graph = Graph::new();
    assert_eq!(plan(&graph, 1, &[], 2, &[]), None);
}

#[test]
fn test_same_kind_needs_an_edge() {
    let graph = store(&[(1, 1, &[], 2, &[], 1)]);
    assert_eq!(plan(&graph, 1, &[], 1, &[]), None);
    let looped = store(&[(1, 1, &[], 1, &[], 7)]);
    assert_eq!(plan(&looped, 1, &[], 1, &[]), Some(vec![7]));
}

#[test]
fn test_unreachable_kind_has_no_plan() {
    let graph = store(&[(1, 1, &[], 2, &[], 1), (1, 3, &[], 4, &[], 2)]);
    assert_eq!(plan(&graph, 1, &[], 4, &[]), None);
    assert_eq!(plan(&graph, 2, &[], 1, &[]), None);
}

#[test]
fn test_unmet_dependency_has_no_plan() {
    let graph = store(&[(1, 1, &[5], 2, &[], 1)]);
    assert_eq!(plan(&graph, 1, &[], 2, &[]), None);
    assert_eq!(plan(&graph, 1, &[5], 2, &[]), Some(vec![1]));
}

#[test]
fn test_unmet_output_tag_has_no_plan() {
    let graph = store(&[(1, 1, &[], 2, &[], 1)]);
    assert_eq!(plan(&graph, 1, &[], 2, &[9]), None);
}

#[test]
fn test_tag_carried_from_input_to_output() {
    let graph = store(&[(1, 1, &[], 2, &[], 1)]);
    assert_eq!(plan(&graph, 1, &[9], 2, &[9]), Some(vec![1]));
}

#[test]
fn test_tag_handed_out_on_the_way() {
    let graph = store(&[
        (1, 1, &[], 2, &[7], 1),
        (1, 2, &[7], 3, &[8], 2),
        (1, 3, &[8], 4, &[], 3),
    ]);
    assert_eq!(plan(&graph, 1, &[], 4, &[]), Some(vec![1, 2, 3]));
}

#[test]
fn test_cycle_ends() {
    let graph = store(&[(1, 1, &[], 2, &[], 1), (1, 2, &[], 1, &[], 2)]);
    assert_eq!(plan(&graph, 1, &[], 3, &[]), None);
    assert_eq!(plan(&graph, 1, &[], 2, &[]), Some(vec![1]));
}

#[test]
fn test_cycle_with_tags_ends() {
    let graph = store(&[
        (1, 1, &[], 2, &[1], 1),
        (1, 2, &[], 1, &[2], 2),
        (1, 2, &[1, 2], 3, &[], 3),
    ]);
    assert_eq!(plan(&graph, 1, &[], 3, &[]), Some(vec![1, 2, 1, 3]));
    assert_eq!(plan(&graph, 1, &[], 4, &[]), None);
}

#[test]
fn test_edge_is_entered_again_with_other_tags() {
    let graph = store(&[
        (1, 1, &[], 2, &[], 1),
        (1, 2, &[], 1, &[5], 2),
        (1, 2, &[5], 3, &[], 3),
    ]);
    assert_eq!(plan(&graph, 1, &[], 3, &[]), Some(vec![1, 2, 1, 3]));
}

#[test]
fn test_skipped_edge_is_not_used() {
    let graph = store(&[(1, 1, &[], 2, &[], 1), (2, 1, &[], 2, &[], 2)]);
    let none = tags(&[]);
    let first = graph.search(1, &none, 2, &none, &EdgeSet::new()).unwrap();
    assert_eq!(first[0].hash_func, 1);
    let mut skip = EdgeSet::new();
    assert!(skip.insert(first[0].duplicate()));
    let second = graph.search(1, &none, 2, &none, &skip).unwrap();
    assert_eq!(second.len(), 1);
    assert_eq!(second[0].hash_func, 2);
    assert!(!skip.contains(&second[0]));
    assert!(skip.insert(second[0].duplicate()));
    assert!(graph.search(1, &none, 2, &none, &skip).is_none());
}

#[test]
fn test_skipped_edge_in_the_middle() {
    let graph = store(&[
        (1, 1, &[], 2, &[], 1),
        (1, 2, &[], 3, &[], 2),
        (1, 3, &[], 4, &[], 3),
        (9, 2, &[], 4, &[], 4),
    ]);
    let none = tags(&[]);
    let first = graph.search(1, &none, 4, &none, &EdgeSet::new()).unwrap();
    let funcs: Vec<Int> = first.iter().map(|edge| edge.hash_func).collect();
    assert_eq!(funcs, vec![1, 2, 3]);
    let mut skip = EdgeSet::new();
    skip.insert(first[1].duplicate());
    let second = graph.search(1, &none, 4, &none, &skip).unwrap();
    let funcs: Vec<Int> = second.iter().map(|edge| edge.hash_func).collect();
    assert_eq!(funcs, vec![1, 4]);
    for edge in &second {
        assert!(!skip.contains(edge));
    }
}

#[test]
fn test_found_plan_connects_and_provides() {
    // Every edge hands out again what it depends on, so no plan loses a tag
    // that is still asked for.
    let graph = store(&[
        (1, 1, &[], 2, &[7], 1),
        (3, 1, &[], 2, &[], 2),
        (1, 2, &[7], 3, &[7, 8], 3),
        (1, 2, &[], 3, &[], 4),
        (2, 3, &[], 4, &[9], 5),
        (1, 3, &[8], 4, &[8], 6),
    ]);
    let have = tags(&[]);
    for want in [tags(&[]), tags(&[7]), tags(&[8]), tags(&[9]), tags(&[7, 9]), tags(&[8, 9])] {
        let path = graph.search(1, &have, 4, &want, &EdgeSet::new()).unwrap();
        assert!(connects(&path, 1, 4));
        assert!(provides(&path, &have, &want));
        for edge in &path {
            assert!(graph.out_edges(edge.hash_in).unwrap().iter().any(|i| graph.edge(*i).same(edge)));
        }
    }
    assert!(graph.search(1, &have, 4, &tags(&[4]), &EdgeSet::new()).is_none());
}

#[test]
fn test_plan_found_backward_may_lose_a_tag_asked_for() {
    // The last edge consumes the tag 8 that is asked for at the end. Read
    // backward, the tag is asked for before that edge, where it is carried.
    let graph = store(&[(1, 1, &[], 2, &[8], 1), (1, 2, &[8], 3, &[], 2)]);
    let have = tags(&[]);
    let want = tags(&[8]);
    let path = graph.search(1, &have, 3, &want, &EdgeSet::new()).unwrap();
    let funcs: Vec<Int> = path.iter().map(|edge| edge.hash_func).collect();
    assert_eq!(funcs, vec![1, 2]);
    assert!(connects(&path, 1, 3));
    assert!(!provides(&path, &have, &want));
}

#[test]
fn test_backward_plan_may_count_on_a_consumed_tag() {
    // Both edges depend on the tag 10 and neither hands it out again. Read
    // backward, the plan asks only for the tag 10 at its start.
    let graph = store(&[(1, 1, &[10], 2, &[], 1), (1, 2, &[10], 3, &[], 2)]);
    let have = tags(&[10]);
    let want = tags(&[]);
    let path = graph.search(1, &have, 3, &want, &EdgeSet::new()).unwrap();
    let funcs: Vec<Int> = path.iter().map(|edge| edge.hash_func).collect();
    assert_eq!(funcs, vec![1, 2]);
    assert!(connects(&path, 1, 3));
    assert!(!provides(&path, &have, &want));
}

#[test]
fn test_forward_and_backward_meet() {
    let graph = store(&[
        (1, 1, &[], 2, &[], 1),
        (1, 2, &[], 3, &[], 2),
        (1, 3, &[], 4, &[], 3),
        (1, 4, &[], 5, &[], 4),
        (1, 1, &[], 6, &[], 5),
        (1, 1, &[], 7, &[], 6),
        (1, 8, &[], 5, &[], 7),
    ]);
    assert_eq!(plan(&graph, 1, &[], 5, &[]), Some(vec![1, 2, 3, 4]));
}

#[test]
fn test_search_is_repeatable() {
    let graph = store(&[(1, 1, &[], 2, &[], 1), (2, 2, &[], 3, &[], 2), (1, 2, &[], 3, &[], 3)]);
    assert_eq!(plan(&graph, 1, &[], 3, &[]), plan(&graph, 1, &[], 3, &[]));
}

#[test]
fn test_searcher_search_matches_graph_search() {
    let graph = store(&[(1, 1, &[], 2, &[], 1), (1, 2, &[10], 3, &[], 2), (5, 2, &[], 3, &[], 3)]);
    let have = tags(&[10]);
    let want = tags(&[]);
    let skip = EdgeSet::new();
    let mut searcher = Searcher::new(1, &have, 3, &want, &graph, &skip);
    let found = searcher.search().unwrap();
    let funcs: Vec<Int> = found.iter().map(|edge| edge.hash_func).collect();
    assert_eq!(funcs, vec![1, 2]);
}

#[test]
fn test_step_on_empty_frontier_finds_nothing() {
    let graph = store(&[(1, 1, &[], 2, &[], 1)]);
    let none = tags(&[]);
    let skip = EdgeSet::new();
    let mut searcher = Searcher::new(5, &none, 6, &none, &graph, &skip);
    searcher.set_queue_in();
    searcher.set_queue_out();
    assert!(searcher.search_forward().is_none());
    assert!(searcher.search_backward().is_none());
}

#[test]
fn test_forward_seed_needs_its_tags() {
    let graph = store(&[(1, 1, &[4], 2, &[], 1)]);
    let none = tags(&[]);
    let skip = EdgeSet::new();
    let mut searcher = Searcher::new(1, &none, 2, &none, &graph, &skip);
    searcher.set_queue_in();
    assert!(searcher.search_forward().is_none());
}

#[test]
fn test_skipped_state_is_dropped() {
    let graph = store(&[(1, 1, &[], 2, &[], 1)]);
    let none = tags(&[]);
    let mut skip = EdgeSet::new();
    skip.insert(graph.edge(0).duplicate());
    let mut searcher = Searcher::new(1, &none, 2, &none, &graph, &skip);
    searcher.set_queue_in();
    searcher.set_queue_out();
    assert!(searcher.search_forward().is_none());
    assert!(searcher.search_backward().is_none());
    assert!(searcher.search().is_none());
}
