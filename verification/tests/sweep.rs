use std::collections::{BTreeSet, VecDeque};
use transmute::{Edge, EdgeSet, Graph, Int, Variations};

/// A small generator of numbers, the same on every run.
struct Numbers(u64);

impl Numbers {
    fn next(&mut self, below: u64) -> u64 {
        self.0 = self.0.wrapping_mul(6364136223846793005).wrapping_add(1442695040888963407);
        (self.0 >> 33) % below
    }

    fn tags(&mut self, most: u64, universe: u64) -> Variations {
        let mut set = BTreeSet::new();
        for _ in 0..self.next(most + 1) {
            set.insert(self.next(universe) as Int);
        }
        set
    }
}

fn after(tags: &Variations, edge: &Edge) -> Variations {
    &(tags - &edge.hash_var_in) | &edge.hash_var_out
}

fn before(tags: &Variations, edge: &Edge) -> Variations {
    &(tags - &edge.hash_var_out) | &edge.hash_var_in
}

/// The tags after each prefix of the path, if every step finds its tags.
fn supplies(have: &Variations, path: &[Edge]) -> Vec<Option<Variations>> {
    let mut all = vec![Some(have.clone())];
    let mut carried = Some(have.clone());
    for edge in path {
        carried = match carried {
            Some(tags) if edge.hash_var_in.is_subset(&tags) => Some(after(&tags, edge)),
            _ => None,
        };
        all.push(carried.clone());
    }
    all
}

/// What each suffix of the path asks for, read backward.
fn demands(path: &[Edge], want: &Variations) -> Vec<Variations> {
    let mut all = vec![want.clone(); path.len() + 1];
    for i in (0..path.len()).rev() {
        all[i] = before(&all[i + 1], &path[i]);
    }
    all
}

fn connects(path: &[Edge], hash_in: Int, hash_out: Int) -> bool {
    !path.is_empty()
        && path[0].hash_in == hash_in
        && path[path.len() - 1].hash_out == hash_out
        && path.windows(2).all(|pair| pair[0].hash_out == pair[1].hash_in)
}

/// Whether the forward and the backward reading of the path meet somewhere.
fn justified(path: &[Edge], have: &Variations, want: &Variations) -> bool {
    let supplies = supplies(have, path);
    let demands = demands(path, want);
    (0..=path.len()).any(|k| match &supplies[k] {
        Some(tags) => demands[k].is_subset(tags),
        None => false,
    })
}

fn provides(path: &[Edge], have: &Variations, want: &Variations) -> bool {
    match &supplies(have, path)[path.len()] {
        Some(tags) => want.is_subset(tags),
        None => false,
    }
}

/// Whether no step consumes a tag that is still asked for after it.
fn sparing(path: &[Edge], want: &Variations) -> bool {
    let demands = demands(path, want);
    path.iter().enumerate().all(|(i, edge)| {
        (&edge.hash_var_in - &edge.hash_var_out).is_disjoint(&demands[i + 1])
    })
}

/// Whether some chain of edges outside `skip` answers the query, found by
/// trying every way forward.
fn answerable(
    edges: &[Edge],
    skip: &EdgeSet,
    hash_in: Int,
    have: &Variations,
    hash_out: Int,
    want: &Variations,
) -> bool {
    let mut seen: BTreeSet<(Int, Variations)> = BTreeSet::new();
    let mut queue = VecDeque::new();
    queue.push_back((hash_in, have.clone()));
    seen.insert((hash_in, have.clone()));
    while let Some((kind, tags)) = queue.pop_front() {
        for edge in edges {
            if edge.hash_in != kind || skip.contains(edge) || !edge.hash_var_in.is_subset(&tags) {
                continue;
            }
            let next = after(&tags, edge);
            if edge.hash_out == hash_out && want.is_subset(&next) {
                return true;
            }
            if seen.insert((edge.hash_out, next.clone())) {
                queue.push_back((edge.hash_out, next));
            }
        }
    }
    false
}

#[test]
fn test_sweep_of_small_graphs() {
    let mut numbers = Numbers(2026);
    let mut found_some = 0;
    let mut found_none = 0;
    let mut not_sparing = 0;
    for _ in 0..600 {
        let kinds = 2 + numbers.next(4);
        let universe = 1 + numbers.next(3);
        let mut graph = Graph::new();
        for func in 0..(1 + numbers.next(8)) {
            let cost = numbers.next(4) as Int;
            let hash_in = numbers.next(kinds) as Int;
            let hash_out = numbers.next(kinds) as Int;
            let var_in = numbers.tags(2, universe);
            let var_out = numbers.tags(2, universe);
            graph.add_edge(cost, hash_in, var_in, hash_out, var_out, func as Int);
        }
        let edges: Vec<Edge> = (0..graph.len()).map(|i| graph.edge(i).duplicate()).collect();
        let mut skip = EdgeSet::new();
        for edge in &edges {
            if numbers.next(5) == 0 {
                skip.insert(edge.duplicate());
            }
        }
        let hash_in = numbers.next(kinds) as Int;
        let hash_out = numbers.next(kinds) as Int;
        let have = numbers.tags(2, universe);
        let want = numbers.tags(2, universe);

        match graph.search(hash_in, &have, hash_out, &want, &skip) {
            Some(path) => {
                found_some += 1;
                assert!(connects(&path, hash_in, hash_out));
                for edge in &path {
                    assert!(edges.iter().any(|known| known.same(edge)));
                    assert!(!skip.contains(edge));
                }
                assert!(justified(&path, &have, &want));
                assert_eq!(sparing(&path, &want), provides(&path, &have, &want));
                if !sparing(&path, &want) {
                    not_sparing += 1;
                }
            }
            None => {
                found_none += 1;
                assert!(!answerable(&edges, &skip, hash_in, &have, hash_out, &want));
            }
        }
    }
    // The sweep saw plans, queries without a plan, and plans that lose a tag.
    assert!(found_some > 50);
    assert!(found_none > 50);
    assert!(not_sparing > 0);
}

#[test]
fn test_sweep_without_tags_finds_exactly_what_exists() {
    let mut numbers = Numbers(7);
    let none: Variations = BTreeSet::new();
    for _ in 0..400 {
        let kinds = 2 + numbers.next(5);
        let mut graph = Graph::new();
        for func in 0..(1 + numbers.next(10)) {
            let cost = numbers.next(5) as Int;
            let hash_in = numbers.next(kinds) as Int;
            let hash_out = numbers.next(kinds) as Int;
            graph.add_edge(cost, hash_in, BTreeSet::new(), hash_out, BTreeSet::new(), func as Int);
        }
        let edges: Vec<Edge> = (0..graph.len()).map(|i| graph.edge(i).duplicate()).collect();
        let skip = EdgeSet::new();
        let hash_in = numbers.next(kinds) as Int;
        let hash_out = numbers.next(kinds) as Int;
        let found = graph.search(hash_in, &none, hash_out, &none, &skip);
        assert_eq!(found.is_some(), answerable(&edges, &skip, hash_in, &none, hash_out, &none));
        if let Some(path) = found {
            assert!(connects(&path, hash_in, hash_out));
            assert!(provides(&path, &none, &none));
        }
    }
}
