use std::collections::BTreeSet;
use transmute::{Driver, Failure, Graph, Int, Step, Variations, MAX_ATTEMPTS};

type Row<'a> = (Int, Int, &'a [Int], Int, &'a [Int], Int);

fn tags(items: &[Int]) -> Variations {
    let mut set = BTreeSet::new();
    for item in items {
        set.insert(*item);
    }
    set
}

fn store(rows: &[Row]) -> Graph {
    let mut graph = Graph::new();
    for (cost, hash_in, var_in, hash_out, var_out, func) in rows {
        graph.add_edge(*cost, *hash_in, tags(var_in), *hash_out, tags(var_out), *func);
    }
    graph
}

/// Asks for plans from `hash_in = 1` to `hash_out = 2` and runs them; a
/// transformer fails when its identifier is in `failing`. Hands back the
/// transformers whose run succeeded as a whole, or the failure, and the
/// transformers that were blamed.
fn run(graph: &Graph, failing: &[Int], max_attempts: usize) -> (Result<Vec<Int>, Failure>, Vec<Int>) {
    let none = tags(&[]);
    let mut driver = Driver::new(max_attempts);
    let mut blamed = Vec::new();
    loop {
        match driver.next(graph, 1, &none, 2, &none) {
            Step::Run(path) => {
                let broken = path.iter().position(|edge| failing.contains(&edge.hash_func));
                match broken {
                    Some(step) => {
                        blamed.push(path[step].hash_func);
                        let message = format!("transformer {} broke", path[step].hash_func);
                        driver.failed(step, "ValueError", &message);
                        assert_eq!(driver.failures(), blamed.len());
                        assert_eq!(driver.excluded(), blamed.len());
                        assert!(driver.excluded() <= driver.attempts_made());
                        assert!(driver.attempts_made() <= max_attempts);
                    }
                    None => {
                        return (Ok(path.iter().map(|edge| edge.hash_func).collect()), blamed);
                    }
                }
            }
            Step::Stop(failure) => return (Err(failure), blamed),
        }
    }
}

#[test]
fn test_retry_excludes_failure() {
    let graph = store(&[(1, 1, &[], 2, &[], 1), (2, 1, &[], 2, &[], 2)]);
    let (result, blamed) = run(&graph, &[1], 10);
    assert!(matches!(result, Ok(ref funcs) if funcs == &vec![2]));
    assert_eq!(blamed, vec![1]);
}

#[test]
fn test_success_at_first_attempt() {
    let graph = store(&[(1, 1, &[], 2, &[], 1), (2, 1, &[], 2, &[], 2)]);
    let (result, blamed) = run(&graph, &[], 10);
    assert!(matches!(result, Ok(ref funcs) if funcs == &vec![1]));
    assert!(blamed.is_empty());
}

#[test]
fn test_no_plan_is_lacking_reagent() {
    let graph = store(&[(1, 1, &[], 3, &[], 1)]);
    let (result, blamed) = run(&graph, &[], 10);
    assert!(matches!(result, Err(Failure::LackingReagent)));
    assert!(blamed.is_empty());
}

#[test]
fn test_lacking_reagent_message() {
    assert_eq!(
        Failure::LackingReagent.message(),
        "Could not create a transmutation. Missing some critical reagents. Consider adding more."
    );
}

#[test]
fn test_execution_failure_message_is_its_text() {
    let failure = Failure::ExecutionFailure { message: String::from("summary\nreport") };
    assert_eq!(failure.message(), "summary\nreport");
}

#[test]
fn test_all_paths_fail_is_execution_failure() {
    let graph = store(&[(1, 1, &[], 2, &[], 1), (2, 1, &[], 2, &[], 2)]);
    let (result, blamed) = run(&graph, &[1, 2], 10);
    assert_eq!(blamed, vec![1, 2]);
    match result {
        Err(Failure::ExecutionFailure { message }) => {
            assert_eq!(
                message,
                "Some problems occurred during the transmution process:\n\
                 ValueError: transformer 1 broke\n\
                 ValueError: transformer 2 broke"
            );
        }
        _ => panic!("an execution failure was expected"),
    }
}

#[test]
fn test_one_failure_is_reported_once() {
    let graph = store(&[(1, 1, &[], 2, &[], 1)]);
    let (result, blamed) = run(&graph, &[1], 10);
    assert_eq!(blamed, vec![1]);
    match result {
        Err(Failure::ExecutionFailure { message }) => {
            assert_eq!(
                message,
                "Some problems occurred during the transmution process:\nValueError: transformer 1 broke"
            );
            assert_eq!(message.matches("transformer 1 broke").count(), 1);
        }
        _ => panic!("an execution failure was expected"),
    }
}

#[test]
fn test_failures_match_excluded_edges() {
    let graph = store(&[
        (1, 1, &[], 2, &[], 1),
        (2, 1, &[], 2, &[], 2),
        (3, 1, &[], 2, &[], 3),
        (4, 1, &[], 2, &[], 4),
    ]);
    let (result, blamed) = run(&graph, &[1, 2, 3, 4], 10);
    assert_eq!(blamed, vec![1, 2, 3, 4]);
    match result {
        Err(Failure::ExecutionFailure { message }) => {
            let reports: Vec<&str> = message.lines().skip(1).collect();
            assert_eq!(reports.len(), blamed.len());
            for func in &blamed {
                let needle = format!("transformer {} broke", func);
                assert_eq!(reports.iter().filter(|line| line.contains(&needle)).count(), 1);
            }
        }
        _ => panic!("an execution failure was expected"),
    }
}

#[test]
fn test_attempts_are_limited() {
    let graph = store(&[
        (1, 1, &[], 2, &[], 1),
        (2, 1, &[], 2, &[], 2),
        (3, 1, &[], 2, &[], 3),
        (4, 1, &[], 2, &[], 4),
    ]);
    let (result, blamed) = run(&graph, &[1, 2, 3], 2);
    assert_eq!(blamed, vec![1, 2]);
    match result {
        Err(Failure::ExecutionFailure { message }) => {
            assert_eq!(message.lines().count(), 3);
        }
        _ => panic!("an execution failure was expected"),
    }
    let (result, blamed) = run(&graph, &[1, 2, 3], 4);
    assert!(matches!(result, Ok(ref funcs) if funcs == &vec![4]));
    assert_eq!(blamed, vec![1, 2, 3]);
}

#[test]
fn test_usual_number_of_attempts() {
    assert_eq!(MAX_ATTEMPTS, 10);
    // Eleven edges whose transformers all fail: the eleventh is never tried.
    let mut graph = Graph::new();
    for func in 1..=11 {
        graph.add_edge(func, 1, tags(&[]), 2, tags(&[]), func);
    }
    let failing: Vec<Int> = (1..=11).collect();
    let (result, blamed) = run(&graph, &failing, MAX_ATTEMPTS);
    assert_eq!(blamed, (1..=10).collect::<Vec<Int>>());
    match result {
        Err(Failure::ExecutionFailure { message }) => assert_eq!(message.lines().count(), 11),
        _ => panic!("an execution failure was expected"),
    }
}

#[test]
fn test_no_attempt_allowed() {
    let graph = store(&[(1, 1, &[], 2, &[], 1)]);
    let (result, blamed) = run(&graph, &[], 0);
    assert!(matches!(result, Err(Failure::LackingReagent)));
    assert!(blamed.is_empty());
}

#[test]
fn test_earlier_edges_are_not_blamed() {
    let graph = store(&[
        (1, 1, &[], 3, &[], 1),
        (1, 3, &[], 2, &[], 2),
        (1, 3, &[], 4, &[], 3),
        (1, 4, &[], 2, &[], 4),
    ]);
    let (result, blamed) = run(&graph, &[2], 10);
    assert_eq!(blamed, vec![2]);
    assert!(matches!(result, Ok(ref funcs) if funcs == &vec![1, 3, 4]));
}

#[test]
fn test_driver_counts_attempts_and_failures() {
    let graph = store(&[(1, 1, &[], 2, &[], 1), (2, 1, &[], 2, &[], 2)]);
    let none = tags(&[]);
    let mut driver = Driver::new(3);
    assert_eq!((driver.attempts_made(), driver.failures(), driver.excluded()), (0, 0, 0));
    let first = match driver.next(&graph, 1, &none, 2, &none) {
        Step::Run(path) => path,
        Step::Stop(_) => panic!("a plan was expected"),
    };
    assert_eq!(first[0].hash_func, 1);
    assert_eq!((driver.attempts_made(), driver.failures(), driver.excluded()), (1, 0, 0));
    driver.failed(0, "KeyError", "'missing'");
    assert_eq!((driver.attempts_made(), driver.failures(), driver.excluded()), (1, 1, 1));
    let second = match driver.next(&graph, 1, &none, 2, &none) {
        Step::Run(path) => path,
        Step::Stop(_) => panic!("a plan was expected"),
    };
    assert_eq!(second[0].hash_func, 2);
    driver.failed(0, "TypeError", "");
    assert_eq!((driver.attempts_made(), driver.failures(), driver.excluded()), (2, 2, 2));
    match driver.next(&graph, 1, &none, 2, &none) {
        Step::Stop(Failure::ExecutionFailure { message }) => {
            assert_eq!(
                message,
                "Some problems occurred during the transmution process:\nKeyError: 'missing'\nTypeError: "
            );
        }
        _ => panic!("an execution failure was expected"),
    }
    assert_eq!((driver.attempts_made(), driver.failures(), driver.excluded()), (3, 2, 2));
    // No attempt is left: the answer stays the same and nothing is counted.
    assert!(matches!(
        driver.next(&graph, 1, &none, 2, &none),
        Step::Stop(Failure::ExecutionFailure { .. })
    ));
    assert_eq!((driver.attempts_made(), driver.failures(), driver.excluded()), (3, 2, 2));
}
