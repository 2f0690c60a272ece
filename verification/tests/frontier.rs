use std::collections::BTreeSet;
use transmute::frontier::Frontier;
use transmute::{EdgeSet, Graph, Int, Searcher, State, Variations};

fn tags(items: &[Int]) -> Variations {
    let mut set = BTreeSet::new();
    for item in items {
        set.insert(*item);
    }
    set
}

/// Four edges, all but the last between the same two kinds, that differ in
/// cost, kinds or transformer, and hand out different tags.
fn four_edges() -> Graph {
    let mut graph = Graph::new();
    graph.add_edge(2, 1, tags(&[]), 2, tags(&[1]), 10);
    graph.add_edge(1, 1, tags(&[]), 2, tags(&[2]), 11);
    graph.add_edge(1, 1, tags(&[]), 2, tags(&[3]), 12);
    graph.add_edge(1, 0, tags(&[]), 2, tags(&[]), 13);
    graph
}

#[test]
fn test_new_frontier_is_empty() {
    let graph = four_edges();
    let seed = tags(&[]);
    let mut frontier = Frontier::new(&seed, &graph, true);
    assert!(frontier.states.is_empty());
    assert!(frontier.queue.is_empty());
    assert_eq!(frontier.visited.len(), 4);
    assert!(frontier.visited.iter().all(|list| list.is_empty()));
    assert_eq!(frontier.pop(&graph), None);
    assert!(!frontier.seen(0, &seed));
}

#[test]
fn test_push_numbers_states_and_lets_them_wait() {
    let graph = four_edges();
    let seed = tags(&[]);
    let mut frontier = Frontier::new(&seed, &graph, true);
    assert_eq!(frontier.push(State::new(5, 0, 2, None, tags(&[1]))), 0);
    assert_eq!(frontier.push(State::new(3, 1, 1, None, tags(&[2]))), 1);
    assert_eq!(frontier.push(State::new(4, 2, 1, Some((0, 2)), tags(&[1, 3]))), 2);
    assert_eq!(frontier.states.len(), 3);
    assert_eq!(frontier.queue, vec![0, 1, 2]);
    assert_eq!(frontier.states[2].parent, Some(0));
    assert_eq!(frontier.states[2].actual_cost, 3);
}

#[test]
fn test_pop_serves_the_lowest_score_first() {
    let graph = four_edges();
    let seed = tags(&[]);
    let mut frontier = Frontier::new(&seed, &graph, true);
    frontier.push(State::new(5, 0, 2, None, tags(&[1])));
    frontier.push(State::new(3, 1, 1, None, tags(&[2])));
    frontier.push(State::new(4, 2, 1, None, tags(&[3])));
    assert_eq!(frontier.pop(&graph), Some(1));
    assert_eq!(frontier.queue, vec![0, 2]);
    assert_eq!(frontier.pop(&graph), Some(2));
    assert_eq!(frontier.pop(&graph), Some(0));
    assert_eq!(frontier.pop(&graph), None);
    assert_eq!(frontier.states.len(), 3);
}

#[test]
fn test_pop_breaks_ties_by_sum_of_costs_then_edge() {
    let graph = four_edges();
    let seed = tags(&[]);
    let mut frontier = Frontier::new(&seed, &graph, true);
    // The same score throughout.
    let root = frontier.push(State::new(7, 0, 2, None, tags(&[1])));
    let dear = frontier.push(State::new(7, 1, 1, Some((root, 2)), tags(&[1, 2])));
    let by_func = frontier.push(State::new(7, 2, 1, None, tags(&[3])));
    let by_cost = frontier.push(State::new(7, 1, 1, None, tags(&[2])));
    let by_kind = frontier.push(State::new(7, 3, 1, None, tags(&[])));
    // Sums of costs: 2, 3, 1, 1, 1. Among the three with the sum 1 the edge
    // decides: the kind accepted, then the transformer.
    assert_eq!(frontier.pop(&graph), Some(by_kind));
    assert_eq!(frontier.pop(&graph), Some(by_cost));
    assert_eq!(frontier.pop(&graph), Some(by_func));
    assert_eq!(frontier.pop(&graph), Some(root));
    assert_eq!(frontier.pop(&graph), Some(dear));
}

#[test]
fn test_pop_serves_equal_states_in_the_order_they_came() {
    let graph = four_edges();
    let seed = tags(&[]);
    let mut frontier = Frontier::new(&seed, &graph, true);
    frontier.push(State::new(1, 1, 1, None, tags(&[2])));
    frontier.push(State::new(1, 1, 1, None, tags(&[2])));
    frontier.push(State::new(0, 1, 1, None, tags(&[2])));
    assert_eq!(frontier.pop(&graph), Some(2));
    assert_eq!(frontier.pop(&graph), Some(0));
    assert_eq!(frontier.pop(&graph), Some(1));
}

#[test]
fn test_comes_before_is_strict() {
    let graph = four_edges();
    let seed = tags(&[]);
    let mut frontier = Frontier::new(&seed, &graph, true);
    let a = frontier.push(State::new(1, 1, 1, None, tags(&[2])));
    let b = frontier.push(State::new(1, 1, 1, None, tags(&[2])));
    let c = frontier.push(State::new(2, 1, 1, None, tags(&[2])));
    assert!(!frontier.comes_before(&graph, a, b));
    assert!(!frontier.comes_before(&graph, b, a));
    assert!(frontier.comes_before(&graph, a, c));
    assert!(!frontier.comes_before(&graph, c, a));
}

#[test]
fn test_key_of_is_the_seed_or_the_tags_of_the_parent() {
    let graph = four_edges();
    let seed = tags(&[1]);
    let mut frontier = Frontier::new(&seed, &graph, true);
    let root = frontier.push(State::new(1, 1, 1, None, tags(&[1, 2])));
    let child = frontier.push(State::new(2, 2, 1, Some((root, 1)), tags(&[1, 2, 3])));
    assert_eq!(frontier.key_of(root), &tags(&[1]));
    assert_eq!(frontier.key_of(child), &tags(&[1, 2]));
}

#[test]
fn test_record_lists_one_state_for_each_key() {
    let graph = four_edges();
    let seed = tags(&[]);
    let mut frontier = Frontier::new(&seed, &graph, true);
    let first = frontier.push(State::new(1, 1, 1, None, tags(&[2])));
    let again = frontier.push(State::new(2, 1, 1, None, tags(&[2])));
    let child = frontier.push(State::new(3, 1, 1, Some((first, 1)), tags(&[2])));
    assert_eq!(frontier.find(1, &seed), None);
    frontier.record(first);
    assert_eq!(frontier.visited[1], vec![first]);
    assert!(frontier.seen(1, &seed));
    assert_eq!(frontier.find(1, &seed), Some(0));
    assert!(!frontier.seen(1, &tags(&[2])));
    assert!(!frontier.seen(0, &seed));
    // The same edge entered with the same tags: the later state takes the place.
    frontier.record(again);
    assert_eq!(frontier.visited[1], vec![again]);
    // The same edge entered with other tags: one more state is listed.
    frontier.record(child);
    assert_eq!(frontier.visited[1], vec![again, child]);
    assert!(frontier.seen(1, &tags(&[2])));
    assert_eq!(frontier.find(1, &tags(&[2])), Some(1));
    assert!(frontier.visited[0].is_empty());
    assert_eq!(frontier.queue, vec![first, again, child]);
}

#[test]
fn test_lineage_leads_up_to_the_root() {
    let graph = four_edges();
    let seed = tags(&[]);
    let mut frontier = Frontier::new(&seed, &graph, true);
    let root = frontier.push(State::new(1, 3, 1, None, tags(&[])));
    let other = frontier.push(State::new(1, 0, 2, None, tags(&[1])));
    let child = frontier.push(State::new(2, 1, 1, Some((root, 1)), tags(&[2])));
    let grandchild = frontier.push(State::new(3, 2, 1, Some((child, 2)), tags(&[2, 3])));
    assert_eq!(frontier.lineage(root), vec![3]);
    assert_eq!(frontier.lineage(other), vec![0]);
    assert_eq!(frontier.lineage(child), vec![1, 3]);
    assert_eq!(frontier.lineage(grandchild), vec![2, 1, 3]);
}

#[test]
fn test_seeding_lets_the_right_edges_wait() {
    let mut graph = Graph::new();
    graph.add_edge(1, 1, tags(&[]), 2, tags(&[]), 1);
    graph.add_edge(1, 1, tags(&[5]), 2, tags(&[]), 2);
    graph.add_edge(1, 1, tags(&[6]), 3, tags(&[]), 3);
    graph.add_edge(1, 3, tags(&[7]), 2, tags(&[]), 4);
    graph.add_edge(1, 2, tags(&[]), 1, tags(&[]), 5);
    let have = tags(&[5]);
    let want = tags(&[]);
    let skip = EdgeSet::new();
    let mut searcher = Searcher::new(1, &have, 2, &want, &graph, &skip);
    assert_eq!(searcher.waiting(), (0, 0));
    // Forward: the edges that accept `hash_in` and whose tags the value has.
    searcher.set_queue_in();
    assert_eq!(searcher.waiting(), (2, 0));
    // Backward: every edge that returns `hash_out`, whatever it depends on.
    searcher.set_queue_out();
    assert_eq!(searcher.waiting(), (2, 3));
}

#[test]
fn test_a_step_serves_one_state_and_adds_its_successors() {
    let mut graph = Graph::new();
    graph.add_edge(1, 1, tags(&[]), 2, tags(&[]), 1);
    graph.add_edge(1, 2, tags(&[]), 3, tags(&[]), 2);
    graph.add_edge(1, 2, tags(&[9]), 3, tags(&[]), 3);
    graph.add_edge(1, 2, tags(&[]), 4, tags(&[]), 4);
    graph.add_edge(1, 5, tags(&[]), 6, tags(&[]), 5);
    let none = tags(&[]);
    let skip = EdgeSet::new();
    let mut searcher = Searcher::new(1, &none, 6, &none, &graph, &skip);
    searcher.set_queue_in();
    searcher.set_queue_out();
    assert_eq!(searcher.waiting(), (1, 1));
    // The first edge is served; of the three edges that can follow it, two find
    // their tags.
    assert!(searcher.search_forward().is_none());
    assert_eq!(searcher.waiting(), (2, 1));
    // The last edge is served; no edge returns the kind it accepts.
    assert!(searcher.search_backward().is_none());
    assert_eq!(searcher.waiting(), (2, 0));
    assert!(searcher.search_backward().is_none());
    assert_eq!(searcher.waiting(), (2, 0));
    assert!(searcher.search().is_none());
}
