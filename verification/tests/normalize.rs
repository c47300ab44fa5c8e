use collector::cfg::{BasicBlock, ControlFlowGraph, Function, NO_SANCOV_INDEX};
use collector::client::{
    can_remap_modules, fuzzer_client_param, fuzzer_client_param_module, get_corpus_priorities, normalize_modules,
};
use collector::concat::concat_control_flow_graph;
use collector::remap::{remap_is_defined, remap_sancov_index};

fn block(id: u64, successors: Vec<u64>, sancov_index: u32) -> BasicBlock {
    BasicBlock { id, successors, sancov_index }
}

fn module(name: &str, blocks: Vec<BasicBlock>) -> ControlFlowGraph {
    ControlFlowGraph { functions: vec![Function { id: 0, name: name.to_string(), basic_blocks: blocks }] }
}

#[test]
fn remap_moves_instrumented_blocks_into_their_slot() {
    let mut cfg = module(
        "f",
        vec![block(0, vec![1], 7), block(1, vec![2], 150), block(2, vec![], NO_SANCOV_INDEX)],
    );
    let starts = [0u64, 100];
    let offsets = [0u64, 500];
    assert!(remap_is_defined(&cfg, &starts, &offsets));
    remap_sancov_index(&mut cfg, &starts, &offsets);
    let blocks = &cfg.functions[0].basic_blocks;
    assert_eq!(blocks[0].sancov_index, 7);
    assert_eq!(blocks[1].sancov_index, 550);
    assert_eq!(blocks[2].sancov_index, NO_SANCOV_INDEX);
    assert_eq!(blocks[0].successors, vec![1]);
    assert_eq!(cfg.functions[0].name, "f");
}

#[test]
fn remap_takes_the_last_slot_that_starts_at_the_index() {
    let mut cfg = module("f", vec![block(0, vec![], 100), block(1, vec![], 99)]);
    let starts = [0u64, 100, 100];
    let offsets = [10u64, 500, 900];
    assert!(remap_is_defined(&cfg, &starts, &offsets));
    remap_sancov_index(&mut cfg, &starts, &offsets);
    assert_eq!(cfg.functions[0].basic_blocks[0].sancov_index, 900);
    assert_eq!(cfg.functions[0].basic_blocks[1].sancov_index, 109);
}

#[test]
fn remap_is_not_defined_below_the_first_start() {
    let cfg = module("f", vec![block(0, vec![], 3)]);
    assert!(!remap_is_defined(&cfg, &[5], &[0]));
    assert!(!remap_is_defined(&cfg, &[], &[]));
    assert!(!remap_is_defined(&cfg, &[0, 1], &[0]));
    assert!(!remap_is_defined(&cfg, &[0], &[u32::MAX as u64]));
    assert!(!remap_is_defined(&cfg, &[0], &[u32::MAX as u64 - 3]));
    assert!(remap_is_defined(&cfg, &[0], &[u32::MAX as u64 - 4]));
}

#[test]
fn remap_needs_no_slot_without_instrumentation() {
    let mut cfg = module("f", vec![block(0, vec![], NO_SANCOV_INDEX)]);
    assert!(remap_is_defined(&cfg, &[], &[]));
    remap_sancov_index(&mut cfg, &[], &[]);
    assert_eq!(cfg.functions[0].basic_blocks[0].sancov_index, NO_SANCOV_INDEX);
}

#[test]
fn concat_numbers_the_blocks_of_two_modules() {
    let first = module("a", vec![block(0, vec![], 0), block(1, vec![0], 1)]);
    let second = module("b", vec![block(0, vec![], 2), block(1, vec![0], 3)]);
    let joined = concat_control_flow_graph(vec![first, second]);
    assert_eq!(joined.functions.len(), 2);
    assert_eq!(joined.functions[0].id, 0);
    assert_eq!(joined.functions[1].id, 1);
    assert_eq!(joined.functions[0].name, "a");
    assert_eq!(joined.functions[1].name, "b");
    let ids: Vec<u64> =
        joined.functions.iter().flat_map(|f| f.basic_blocks.iter().map(|b| b.id)).collect();
    assert_eq!(ids, vec![0, 1, 2, 3]);
    assert_eq!(joined.functions[0].basic_blocks[1].successors, vec![0]);
    assert_eq!(joined.functions[1].basic_blocks[0].successors, Vec::<u64>::new());
    assert_eq!(joined.functions[1].basic_blocks[1].successors, vec![2]);
    assert_eq!(joined.functions[1].basic_blocks[1].sancov_index, 3);
}

#[test]
fn concat_numbers_in_first_seen_order() {
    let only = module("a", vec![block(10, vec![30, 20], 0), block(20, vec![], 1), block(30, vec![10], 2)]);
    let joined = concat_control_flow_graph(vec![only]);
    let blocks = &joined.functions[0].basic_blocks;
    assert_eq!(blocks[0].id, 0);
    assert_eq!(blocks[0].successors, vec![1, 2]);
    assert_eq!(blocks[1].id, 2);
    assert_eq!(blocks[2].id, 1);
    assert_eq!(blocks[2].successors, vec![0]);
}

#[test]
fn concat_collapses_repeated_successors() {
    let only = module("a", vec![block(0, vec![1, 1, 0, 1], 0), block(1, vec![], 1)]);
    let joined = concat_control_flow_graph(vec![only]);
    assert_eq!(joined.functions[0].basic_blocks[0].successors, vec![1, 0]);
}

#[test]
fn concat_of_nothing_is_empty() {
    let joined = concat_control_flow_graph(Vec::new());
    assert!(joined.functions.is_empty());
}

#[test]
fn modules_are_remapped_and_joined() {
    let param = fuzzer_client_param {
        modules: vec![
            fuzzer_client_param_module {
                cfg: module("a", vec![block(0, vec![1], 0), block(1, vec![], 1)]),
                remap_starts: vec![0],
                remap_offsets: vec![0],
            },
            fuzzer_client_param_module {
                cfg: module("b", vec![block(0, vec![1], 0), block(1, vec![], NO_SANCOV_INDEX)]),
                remap_starts: vec![0],
                remap_offsets: vec![2],
            },
        ],
    };
    assert!(can_remap_modules(&param));
    let cfg = normalize_modules(param);
    assert_eq!(cfg.functions.len(), 2);
    assert_eq!(cfg.functions[0].name, "a");
    assert_eq!(cfg.functions[1].name, "b");
    let second = &cfg.functions[1].basic_blocks;
    assert_eq!(second[0].id, 2);
    assert_eq!(second[0].sancov_index, 2);
    assert_eq!(second[0].successors, vec![3]);
    assert_eq!(second[1].id, 3);
    assert_eq!(second[1].sancov_index, NO_SANCOV_INDEX);
}

#[test]
fn modules_without_slot_cannot_be_remapped() {
    let param = fuzzer_client_param {
        modules: vec![fuzzer_client_param_module {
            cfg: module("a", vec![block(0, vec![], 1)]),
            remap_starts: vec![2],
            remap_offsets: vec![0],
        }],
    };
    assert!(!can_remap_modules(&param));
}

#[test]
fn priorities_are_handed_over_when_there_is_room() {
    let mut queue = vec![(7u64, 10u32), (9, 0)];
    let (needed, handed) = get_corpus_priorities(&mut queue, 1);
    assert_eq!(needed, 2);
    assert!(handed.is_empty());
    assert_eq!(queue, vec![(7, 10), (9, 0)]);
    let (needed, handed) = get_corpus_priorities(&mut queue, 2);
    assert_eq!(needed, 2);
    assert_eq!(handed, vec![(7, 10), (9, 0)]);
    assert!(queue.is_empty());
    let (needed, handed) = get_corpus_priorities(&mut queue, 0);
    assert_eq!(needed, 0);
    assert!(handed.is_empty());
}
