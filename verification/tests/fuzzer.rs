use collector::cfg::{BasicBlock, ControlFlowGraph, Function, NO_SANCOV_INDEX};
use collector::fuzzer::Fuzzer;
use collector::structure::build_structure_graph;

fn block(id: u64, successors: Vec<u64>, sancov_index: u32) -> BasicBlock {
    BasicBlock { id, successors, sancov_index }
}

fn graph_of(blocks: Vec<BasicBlock>) -> ControlFlowGraph {
    ControlFlowGraph { functions: vec![Function { id: 0, name: "f".to_string(), basic_blocks: blocks }] }
}

fn engine(blocks: Vec<BasicBlock>) -> Fuzzer {
    let cfg = graph_of(blocks);
    let graph = build_structure_graph(&cfg);
    Fuzzer::new(&graph, cfg)
}

fn chain() -> Fuzzer {
    engine(vec![
        block(0, vec![1], 0),
        block(1, vec![2], NO_SANCOV_INDEX),
        block(2, vec![3], NO_SANCOV_INDEX),
        block(3, vec![], 3),
    ])
}

fn counters(fuzzer: &Fuzzer) -> Vec<u8> {
    (0..fuzzer.node_count()).map(|n| fuzzer.bit_counter(n)).collect()
}

fn sorted(mut deltas: Vec<(usize, u8)>) -> Vec<(usize, u8)> {
    deltas.sort();
    deltas
}

#[test]
fn a_new_engine_has_no_bit_set() {
    let fuzzer = chain();
    assert_eq!(fuzzer.node_count(), 4);
    assert_eq!(counters(&fuzzer), vec![0, 0, 0, 0]);
}

#[test]
fn both_ends_covered_credit_the_path() {
    let mut fuzzer = chain();
    let deltas = fuzzer.update_features(&[0, 24]);
    assert_eq!(counters(&fuzzer), vec![1, 1, 1, 1]);
    assert_eq!(sorted(deltas), vec![(0, 1), (1, 1), (2, 1), (3, 1)]);
}

#[test]
fn replaying_a_batch_changes_nothing() {
    let mut fuzzer = chain();
    fuzzer.update_features(&[0, 24]);
    let before = counters(&fuzzer);
    let deltas = fuzzer.update_features(&[0, 24]);
    assert_eq!(counters(&fuzzer), before);
    assert_eq!(sorted(deltas), vec![(0, 1), (1, 1), (2, 1), (3, 1)]);
}

#[test]
fn one_end_alone_credits_no_node_between() {
    let mut fuzzer = chain();
    let deltas = fuzzer.update_features(&[0]);
    let after = counters(&fuzzer);
    assert_eq!(after[1], 0);
    assert_eq!(after[2], 0);
    assert_eq!(after[3], 0);
    assert!(deltas.iter().all(|&(n, _)| n == 0));
}

#[test]
fn a_dead_end_is_credited_by_its_own_index() {
    let mut fuzzer = chain();
    let deltas = fuzzer.update_features(&[24 + 5]);
    assert_eq!(counters(&fuzzer), vec![0, 0, 0, 1 << 5]);
    assert_eq!(deltas, vec![(3, 1 << 5)]);
}

#[test]
fn the_bits_of_the_lower_index_are_joined() {
    let mut fuzzer = chain();
    fuzzer.update_features(&[0, 1, 7, 24 + 2]);
    assert_eq!(counters(&fuzzer), vec![0b1000_0011, 0b1000_0011, 0b1000_0011, 0b1000_0111]);
}

#[test]
fn unknown_and_repeated_features_count_for_nothing() {
    let mut fuzzer = chain();
    let deltas = fuzzer.update_features(&[8, 16, 800, 0, 0, 24, 24, 0]);
    assert_eq!(counters(&fuzzer), vec![1, 1, 1, 1]);
    assert_eq!(deltas.len(), 4);
    let mut empty = chain();
    assert!(empty.update_features(&[]).is_empty());
    assert!(empty.update_features(&[8, 9, 17]).is_empty());
    assert_eq!(counters(&empty), vec![0, 0, 0, 0]);
}

#[test]
fn bits_are_kept_across_batches() {
    let mut fuzzer = chain();
    fuzzer.update_features(&[0, 24]);
    fuzzer.update_features(&[3, 24]);
    assert_eq!(counters(&fuzzer), vec![0b1001, 0b1001, 0b1001, 0b1001]);
}

#[test]
fn a_path_stops_at_the_first_instrumented_node() {
    let mut fuzzer = engine(vec![
        block(0, vec![1], 0),
        block(1, vec![2], 1),
        block(2, vec![], 2),
    ]);
    let deltas = fuzzer.update_features(&[0, 16]);
    assert_eq!(counters(&fuzzer), vec![0, 0, 1]);
    assert_eq!(deltas, vec![(2, 1)]);
    fuzzer.update_features(&[0, 8]);
    assert_eq!(counters(&fuzzer), vec![1, 1, 1]);
}

#[test]
fn a_cycle_ends_the_walk() {
    let mut fuzzer = engine(vec![
        block(0, vec![1], 4),
        block(1, vec![2], NO_SANCOV_INDEX),
        block(2, vec![1], NO_SANCOV_INDEX),
    ]);
    let deltas = fuzzer.update_features(&[32 + 1]);
    assert_eq!(counters(&fuzzer), vec![2, 2, 2]);
    assert_eq!(sorted(deltas), vec![(0, 2), (1, 2), (2, 2)]);
}

#[test]
fn a_branch_is_credited_only_along_the_covered_arm() {
    let mut fuzzer = engine(vec![
        block(0, vec![1, 2], 0),
        block(1, vec![3], NO_SANCOV_INDEX),
        block(2, vec![4], NO_SANCOV_INDEX),
        block(3, vec![], 1),
        block(4, vec![], 2),
    ]);
    fuzzer.update_features(&[0, 8]);
    assert_eq!(counters(&fuzzer), vec![1, 1, 0, 1, 0]);
    fuzzer.update_features(&[1, 16]);
    assert_eq!(counters(&fuzzer), vec![3, 1, 2, 1, 3]);
}

#[test]
fn a_path_recorded_from_the_higher_index_begins_there() {
    let mut fuzzer = engine(vec![block(0, vec![1], 5), block(1, vec![], 2)]);
    let deltas = fuzzer.update_features(&[40 + 1, 16 + 3]);
    assert_eq!(counters(&fuzzer), vec![8, 8]);
    assert_eq!(sorted(deltas), vec![(0, 8), (1, 8)]);
}

#[test]
fn the_table_holds_the_paths_between_instrumented_nodes() {
    let fuzzer = chain();
    assert!(fuzzer.knows(0));
    assert!(fuzzer.knows(3));
    assert!(!fuzzer.knows(1));
    assert!(!fuzzer.knows(NO_SANCOV_INDEX));
    assert_eq!(fuzzer.edge_path(0, 3), Some(vec![0, 1, 2, 3]));
    assert_eq!(fuzzer.edge_path(3, 3), Some(vec![3]));
    assert_eq!(fuzzer.edge_path(3, 0), None);
    assert_eq!(fuzzer.edge_path(0, 0), None);
}

#[test]
fn the_lower_index_comes_first_whatever_the_direction() {
    let fuzzer = engine(vec![block(0, vec![1], 5), block(1, vec![0], 2)]);
    assert_eq!(fuzzer.edge_path(2, 5), Some(vec![0, 1, 0]));
    assert_eq!(fuzzer.edge_path(5, 2), None);
}

#[test]
fn only_consecutive_repeats_leave_a_path() {
    let looped = engine(vec![
        block(0, vec![1], 4),
        block(1, vec![2], NO_SANCOV_INDEX),
        block(2, vec![1], NO_SANCOV_INDEX),
    ]);
    assert_eq!(looped.edge_path(4, 4), Some(vec![0, 1, 2, 1]));
    let own = engine(vec![block(0, vec![0], 4)]);
    assert_eq!(own.edge_path(4, 4), Some(vec![0]));
    let arms = engine(vec![
        block(0, vec![1, 2], 0),
        block(1, vec![3], NO_SANCOV_INDEX),
        block(2, vec![3], NO_SANCOV_INDEX),
        block(3, vec![], 1),
    ]);
    assert_eq!(arms.edge_path(0, 1), Some(vec![0, 1, 3, 0, 2, 3]));
}

#[test]
fn every_path_of_the_table_is_sound() {
    let sancov: Vec<u32> = vec![0, NO_SANCOV_INDEX, 2, NO_SANCOV_INDEX, 1];
    let fuzzer = engine(vec![
        block(0, vec![1, 3], sancov[0]),
        block(1, vec![2], sancov[1]),
        block(2, vec![0], sancov[2]),
        block(3, vec![4, 3], sancov[3]),
        block(4, vec![], sancov[4]),
    ]);
    let mut entries = 0;
    for lo in 0..3u32 {
        for hi in 0..3u32 {
            if let Some(path) = fuzzer.edge_path(lo, hi) {
                entries += 1;
                assert!(lo <= hi);
                assert!(!path.is_empty());
                assert!(path.iter().all(|&n| n < fuzzer.node_count()));
                assert!(path.windows(2).all(|pair| pair[0] != pair[1]));
                let first = sancov[path[0]];
                assert!(first == lo || first == hi);
                if lo != hi {
                    let last = sancov[path[path.len() - 1]];
                    assert!(last == lo || last == hi);
                    assert!(path.iter().any(|&n| sancov[n] == lo));
                    assert!(path.iter().any(|&n| sancov[n] == hi));
                }
            }
        }
    }
    assert_eq!(fuzzer.edge_path(0, 2), Some(vec![0, 1, 2, 0]));
    assert_eq!(fuzzer.edge_path(0, 1), Some(vec![0, 3, 4]));
    assert_eq!(fuzzer.edge_path(0, 0), Some(vec![0, 3]));
    assert_eq!(fuzzer.edge_path(1, 1), Some(vec![4]));
    assert_eq!(entries, 4);
}

#[test]
fn every_known_index_has_its_node() {
    let diamond = engine(vec![
        block(0, vec![1, 2], 0),
        block(1, vec![3], NO_SANCOV_INDEX),
        block(2, vec![3], NO_SANCOV_INDEX),
        block(3, vec![], 1),
    ]);
    assert_eq!(diamond.node_of(0), Some(0));
    assert_eq!(diamond.node_of(1), Some(3));
    assert_eq!(diamond.node_of(2), None);
    assert_eq!(diamond.edge_path(0, 1), Some(vec![0, 1, 3, 0, 2, 3]));
    assert_eq!(diamond.edge_path(1, 1), Some(vec![3]));
    let line = chain();
    assert_eq!(line.node_of(0), Some(0));
    assert_eq!(line.node_of(3), Some(3));
    assert_eq!(line.node_of(1), None);
    assert_eq!(line.node_of(NO_SANCOV_INDEX), None);
}
