use ch_matrix::graph::{Direction, Edge, Graph};
use ch_matrix::heap::Query;
use ch_matrix::m2m::{many_to_many, ManyToMany};

fn edge(target: u32, weight: i32, duration: i32, forward: bool, backward: bool) -> Edge {
    Edge { target, weight, duration, forward, backward }
}

fn q(node: u32, weight: i32, duration: i32) -> Query {
    Query { node, parent: node, weight, duration }
}

fn enumerate(seed_sets: Vec<Vec<Query>>) -> Vec<(usize, Vec<Query>)> {
    seed_sets.into_iter().enumerate().collect()
}

/// A line 0 - 1 - 2 with edges usable in both directions.
fn line_graph() -> Graph {
    let edges = vec![edge(1, 5, 7, true, true), edge(2, 3, 4, true, true)];
    Graph::new(vec![0, 1, 2, 2], edges, vec![true, true]).unwrap()
}

#[test]
fn empty_target_set_gives_one_row_of_zero_columns() {
    let graph = line_graph();
    let mut engine = ManyToMany::new(&graph, enumerate(vec![vec![q(0, 0, 0)]]), enumerate(vec![]));
    let results = engine.compute().clone();
    assert_eq!(results.len(), 1);
    assert!(results[0].is_empty());
}

#[test]
fn self_source_equals_target() {
    let graph = Graph::new(vec![0, 0], vec![], vec![]).unwrap();
    let sources = vec![vec![q(0, 0, 0)]];
    let targets = vec![vec![q(0, 0, 0)]];
    let results = many_to_many(&graph, sources, targets);
    assert_eq!(results, vec![vec![Some((0, 0))]]);
}

#[test]
fn line_graph_costs_accumulate() {
    let graph = line_graph();
    let results = many_to_many(&graph, vec![vec![q(0, 0, 0)]], vec![vec![q(2, 0, 0)]]);
    assert_eq!(results, vec![vec![Some((8, 11))]]);
}

#[test]
fn unreachable_pair_stays_none() {
    // Two isolated nodes.
    let graph = Graph::new(vec![0, 0, 0], vec![], vec![]).unwrap();
    let results = many_to_many(&graph, vec![vec![q(0, 0, 0)]], vec![vec![q(1, 0, 0)]]);
    assert_eq!(results, vec![vec![None]]);
}

#[test]
fn negative_seed_triggers_loop_fixup_with_independent_minima() {
    // One node with two forward self-loop shortcuts.  The least loop
    // weight (500) and the least loop duration (100) come from different
    // loops and are applied independently.
    let edges = vec![edge(0, 500, 600, true, false), edge(0, 600, 100, true, false)];
    let graph = Graph::new(vec![0, 2], edges, vec![true, true]).unwrap();
    let results = many_to_many(&graph, vec![vec![q(0, -477, 477)]], vec![vec![q(0, 0, 0)]]);
    assert_eq!(results, vec![vec![Some((-477 + 500, 477 + 100))]]);
    let (w, _d) = results[0][0].unwrap();
    assert!(w >= 0);
}

#[test]
fn negative_candidate_without_self_loop_is_discarded() {
    let graph = Graph::new(vec![0, 0], vec![], vec![]).unwrap();
    let results = many_to_many(&graph, vec![vec![q(0, -5, 5)]], vec![vec![q(0, 0, 0)]]);
    assert_eq!(results, vec![vec![None]]);
}

#[test]
fn negative_candidate_with_insufficient_loop_is_discarded() {
    // The loop weight does not lift the sum back to zero.
    let edges = vec![edge(0, 3, 3, true, false)];
    let graph = Graph::new(vec![0, 1], edges, vec![true]).unwrap();
    let results = many_to_many(&graph, vec![vec![q(0, -5, 5)]], vec![vec![q(0, 0, 0)]]);
    assert_eq!(results, vec![vec![None]]);
}

/// A line 0 - 1 - 2 - 3 - 4 with distinct power-of-ten weights.
fn long_line_graph() -> Graph {
    let edges = vec![
        edge(1, 1, 2, true, true),
        edge(2, 10, 20, true, true),
        edge(3, 100, 200, true, true),
        edge(4, 1000, 2000, true, true),
    ];
    Graph::new(vec![0, 1, 2, 3, 4, 4], edges, vec![true; 4]).unwrap()
}

fn seed_sets(nodes: &[u32]) -> Vec<Vec<Query>> {
    nodes.iter().map(|&n| vec![q(n, 0, 0)]).collect()
}

#[test]
fn incremental_equals_batch() {
    let graph = long_line_graph();
    let source_nodes = [0u32, 1, 2];
    let target_nodes = [2u32, 3, 4];

    // Batch: all sources and targets at once.
    let batch = many_to_many(&graph, seed_sets(&source_nodes), seed_sets(&target_nodes));

    // Incremental: two sources and two targets first, then one more of
    // each.
    let mut engine = ManyToMany::new(
        &graph,
        enumerate(seed_sets(&source_nodes[..2])),
        enumerate(seed_sets(&target_nodes[..2])),
    );
    engine.compute();
    engine.add_source((2, vec![q(source_nodes[2], 0, 0)]));
    engine.compute();
    engine.add_target((2, vec![q(target_nodes[2], 0, 0)]));
    let incremental = engine.compute().clone();

    assert_eq!(incremental, batch);
    assert_eq!(incremental.len(), 3);
    assert_eq!(incremental[0].len(), 3);

    // A source added after a target pass joins against the merged bucket
    // cache; the result must still match a fresh batch computation.
    engine.add_source((3, vec![q(3, 0, 0)]));
    let extended = engine.compute().clone();
    let batch4 = many_to_many(&graph, seed_sets(&[0, 1, 2, 3]), seed_sets(&target_nodes));
    assert_eq!(extended, batch4);
}

#[test]
fn engine_equals_serial_reference() {
    let graph = long_line_graph();
    let sources = seed_sets(&[0, 1, 2]);
    let targets = seed_sets(&[2, 3, 4]);
    let serial = many_to_many(&graph, sources.clone(), targets.clone());
    let mut engine = ManyToMany::new(&graph, enumerate(sources), enumerate(targets));
    let engined = engine.compute().clone();
    assert_eq!(serial, engined);
}

#[test]
fn repeated_computation_is_deterministic() {
    let graph = long_line_graph();
    let first = many_to_many(&graph, seed_sets(&[0, 1, 2]), seed_sets(&[2, 3, 4]));
    let second = many_to_many(&graph, seed_sets(&[0, 1, 2]), seed_sets(&[2, 3, 4]));
    assert_eq!(first, second);
}

#[test]
fn tie_in_weight_and_duration_is_stable() {
    // Two routes from 0 to 1 cost exactly (2, 3): directly, and through
    // node 2.  The matrix shows the tied value whichever route wins.
    let edges = vec![
        edge(1, 2, 3, true, false),
        edge(2, 1, 1, true, false),
        edge(1, 1, 2, true, false),
    ];
    let graph = Graph::new(vec![0, 2, 2, 3, 3], edges, vec![true; 3]).unwrap();
    let results = many_to_many(&graph, vec![vec![q(0, 0, 0)]], vec![vec![q(1, 0, 0)]]);
    assert_eq!(results, vec![vec![Some((2, 3))]]);
}

#[test]
fn removing_an_edge_only_loses_connections() {
    let full = line_graph();
    // Same arrays with the second edge's include bit cleared.
    let edges = vec![edge(1, 5, 7, true, true), edge(2, 3, 4, true, true)];
    let shrunk = Graph::new(vec![0, 1, 2, 2], edges, vec![true, false]).unwrap();

    let full_results = many_to_many(&full, vec![vec![q(0, 0, 0)]], vec![vec![q(2, 0, 0)]]);
    let shrunk_results = many_to_many(&shrunk, vec![vec![q(0, 0, 0)]], vec![vec![q(2, 0, 0)]]);
    assert_eq!(full_results, vec![vec![Some((8, 11))]]);
    // The cost can only grow or disappear, never improve.
    assert_eq!(shrunk_results, vec![vec![None]]);
}

#[test]
fn multiple_seeds_per_location_take_the_cheaper_one() {
    // A phantom location contributes two seeds; the cheaper one wins.
    let graph = line_graph();
    let sources = vec![vec![q(0, 4, 4), q(1, 1, 1)]];
    let targets = vec![vec![q(2, 0, 0)]];
    let results = many_to_many(&graph, sources, targets);
    // Through the node-1 seed: 1 + 3 = 4 beats 4 + 8 = 12.
    assert_eq!(results, vec![vec![Some((4, 5))]]);
}

#[test]
fn rows_and_columns_follow_insertion_order() {
    let graph = long_line_graph();
    let results = many_to_many(&graph, seed_sets(&[0, 1]), seed_sets(&[1, 2]));
    assert_eq!(results.len(), 2);
    assert_eq!(results[0].len(), 2);
    // Source 0 to target 1 costs edge 0; source 1 to target 1 costs zero.
    assert_eq!(results[0][0], Some((1, 2)));
    assert_eq!(results[1][0], Some((0, 0)));
    assert_eq!(results[0][1], Some((11, 22)));
    assert_eq!(results[1][1], Some((10, 20)));
}
