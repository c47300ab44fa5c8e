use collector::cfg::{BasicBlock, ControlFlowGraph, Function, NO_CORPUS_ID, NO_SANCOV_INDEX};
use collector::service::{corpus_id_option, create_service, CollectorServiceImpl, ServiceError};
use collector::structure::is_normalized;
use collector::tracker::CoverageTracker;

fn block(id: u64, successors: Vec<u64>, sancov_index: u32) -> BasicBlock {
    BasicBlock { id, successors, sancov_index }
}

fn program() -> ControlFlowGraph {
    ControlFlowGraph {
        functions: vec![
            Function {
                id: 0,
                name: "main".to_string(),
                basic_blocks: vec![
                    block(0, vec![1], 0),
                    block(1, vec![2], NO_SANCOV_INDEX),
                    block(2, vec![3], NO_SANCOV_INDEX),
                    block(3, vec![4], 3),
                ],
            },
            Function { id: 1, name: "leaf".to_string(), basic_blocks: vec![block(4, vec![], 4)] },
        ],
    }
}

fn service() -> CollectorServiceImpl<CoverageTracker> {
    create_service(CoverageTracker::new())
}

#[test]
fn fuzzer_ids_count_up_from_zero() {
    let mut service = service();
    assert_eq!(service.fuzzer_count(), 0);
    assert!(is_normalized(&program()));
    assert_eq!(service.create_fuzzer(program()), Ok(0));
    assert_eq!(service.create_fuzzer(program()), Ok(1));
    assert_eq!(service.create_fuzzer(program()), Ok(2));
    assert_eq!(service.fuzzer_count(), 3);
    assert_eq!(service.observer().node_count(), 5);
}

#[test]
fn an_unknown_fuzzer_is_refused() {
    let mut service = service();
    assert_eq!(service.update_features(0, &[0], NO_CORPUS_ID), Err(ServiceError::UnknownFuzzer));
    service.create_fuzzer(program()).unwrap();
    assert_eq!(service.update_features(1, &[0, 24], 7), Err(ServiceError::UnknownFuzzer));
    assert_eq!(service.observer().covered_nodes(), 0);
    assert_eq!(service.fuzzer_count(), 1);
}

#[test]
fn a_batch_reaches_the_observer() {
    let mut service = service();
    service.create_fuzzer(program()).unwrap();
    let priorities = service.update_features(0, &[0, 24], 7);
    assert_eq!(priorities, Ok(vec![(7, 1)]));
    let tracker = service.observer();
    assert_eq!(tracker.covered_nodes(), 4);
    assert_eq!(tracker.covered_functions(), 1);
    assert!(tracker.in_frontier(3));
    assert_eq!(tracker.frontier_len(), 1);
    assert!(!tracker.is_covered(4));
}

#[test]
fn a_batch_without_corpus_is_attributed_to_none() {
    let mut service = service();
    service.create_fuzzer(program()).unwrap();
    assert_eq!(service.update_features(0, &[0, 24], NO_CORPUS_ID), Ok(vec![]));
    assert_eq!(service.observer().covered_nodes(), 4);
}

#[test]
fn fuzzers_keep_their_own_bit_counters() {
    let mut service = service();
    service.create_fuzzer(program()).unwrap();
    service.create_fuzzer(program()).unwrap();
    assert_eq!(service.update_features(1, &[0, 24], 3), Ok(vec![(3, 1)]));
    assert_eq!(service.update_features(0, &[0, 24], 5), Ok(vec![(5, 1)]));
    assert_eq!(service.observer().frequency(0), 2);
    assert_eq!(service.observer().covered_nodes(), 4);
}

#[test]
fn a_graph_out_of_normal_form_is_refused() {
    let mut service = service();
    let graph = ControlFlowGraph {
        functions: vec![Function { id: 0, name: "f".to_string(), basic_blocks: vec![block(3, vec![], 0)] }],
    };
    assert_eq!(service.create_fuzzer(graph), Err(ServiceError::MalformedGraph));
    assert_eq!(service.fuzzer_count(), 0);
    assert_eq!(service.create_fuzzer(program()), Ok(0));
}

#[test]
fn the_reserved_corpus_id_names_no_corpus() {
    assert_eq!(corpus_id_option(NO_CORPUS_ID), None);
    assert_eq!(corpus_id_option(u64::MAX), None);
    assert_eq!(corpus_id_option(0), Some(0));
    assert_eq!(corpus_id_option(7), Some(7));
    assert_eq!(NO_SANCOV_INDEX, u32::MAX);
}
