use std::collections::BTreeSet;
use transmute::state::{accumulate, score, weigh};
use transmute::{Int, State};

#[test]
fn test_weigh_is_one_plus_total_less_count() {
    assert_eq!(weigh(0, 0, 0, 0), 1);
    assert_eq!(weigh(3, 0, 1, 0), 3);
    assert_eq!(weigh(2, 1, 1, 1), 2);
    assert_eq!(weigh(0, 0, 2, 1), -2);
    assert_eq!(weigh(usize::MAX, usize::MAX, 0, 0), 1 + 2 * (usize::MAX as i128));
    assert_eq!(weigh(0, 0, usize::MAX, usize::MAX), 1 - 2 * (usize::MAX as i128));
}

#[test]
fn test_score_is_base_plus_cost_times_multiplier() {
    assert_eq!(score(0, 5, 1), 5);
    assert_eq!(score(2, 1, 2), 4);
    assert_eq!(score(7, 3, 0), 7);
    assert_eq!(score(7, 0, 100), 7);
    assert_eq!(score(10, 4, -2), 2);
    assert_eq!(score(0, 1, -3), -3);
}

#[test]
fn test_score_stays_within_bounds() {
    assert_eq!(score(Int::MAX, 1, 1), Int::MAX);
    assert_eq!(score(0, Int::MAX, 2), Int::MAX);
    assert_eq!(score(0, Int::MAX, -2), Int::MIN);
    assert_eq!(score(-5, Int::MAX, 2), Int::MAX - 5);
    assert_eq!(score(0, 2, i128::MAX), Int::MAX);
    assert_eq!(score(0, 2, i128::MIN), Int::MIN);
    assert_eq!(score(Int::MIN, 1, -1), Int::MIN);
    assert_eq!(score(0, 1, Int::MAX as i128), Int::MAX);
}

#[test]
fn test_accumulate_adds_within_bounds() {
    assert_eq!(accumulate(0, 0), 0);
    assert_eq!(accumulate(3, 4), 7);
    assert_eq!(accumulate(Int::MAX, 1), Int::MAX);
    assert_eq!(accumulate(Int::MAX - 1, 1), Int::MAX);
    assert_eq!(accumulate(Int::MIN, -1), Int::MIN);
}

#[test]
fn test_root_state_costs_its_edge() {
    let state = State::new(9, 4, 3, None, BTreeSet::new());
    assert_eq!(state.cost, 9);
    assert_eq!(state.actual_cost, 3);
    assert_eq!(state.edge, 4);
    assert_eq!(state.parent, None);
    assert!(state.variations.is_empty());
}

#[test]
fn test_state_adds_its_cost_to_the_sum() {
    let mut tags = BTreeSet::new();
    tags.insert(5);
    let state = State::new(12, 1, 3, Some((7, 10)), tags.clone());
    assert_eq!(state.cost, 12);
    assert_eq!(state.actual_cost, 13);
    assert_eq!(state.edge, 1);
    assert_eq!(state.parent, Some(7));
    assert_eq!(state.variations, tags);
    let capped = State::new(0, 0, 1, Some((0, Int::MAX)), BTreeSet::new());
    assert_eq!(capped.actual_cost, Int::MAX);
}
