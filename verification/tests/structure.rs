use collector::cfg::{BasicBlock, ControlFlowGraph, Function, NO_SANCOV_INDEX};
use collector::concat::concat_control_flow_graph;
use collector::seqs::{dedup_indices, dedup_successors};
use collector::structure::{build_structure_graph, is_normalized, is_well_formed, GraphFunction, GraphNode, StructureGraph};

fn block(id: u64, successors: Vec<u64>, sancov_index: u32) -> BasicBlock {
    BasicBlock { id, successors, sancov_index }
}

fn function(name: &str, blocks: Vec<BasicBlock>) -> Function {
    Function { id: 0, name: name.to_string(), basic_blocks: blocks }
}

#[test]
fn consecutive_repeats_are_removed() {
    let mut path: Vec<usize> = vec![1, 1, 2, 2, 2, 1, 3, 3];
    dedup_indices(&mut path);
    assert_eq!(path, vec![1, 2, 1, 3]);
    let mut indices: Vec<usize> = vec![4, 4, 4];
    dedup_indices(&mut indices);
    assert_eq!(indices, vec![4]);
    let mut none: Vec<usize> = Vec::new();
    dedup_indices(&mut none);
    assert!(none.is_empty());
}

#[test]
fn every_successor_is_kept_once() {
    let mut successors = vec![1u64, 1, 2, 2, 2, 1, 3, 3, 2];
    dedup_successors(&mut successors);
    assert_eq!(successors, vec![1, 2, 3]);
    let mut apart = vec![5u64, 9, 5];
    dedup_successors(&mut apart);
    assert_eq!(apart, vec![5, 9]);
    let mut none: Vec<u64> = Vec::new();
    dedup_successors(&mut none);
    assert!(none.is_empty());
}

#[test]
fn a_successor_listed_again_is_dropped_from_the_node() {
    let cfg = ControlFlowGraph {
        functions: vec![function("f", vec![block(0, vec![1, 2, 1], 0), block(1, vec![], 1), block(2, vec![], 2)])],
    };
    let graph = build_structure_graph(&cfg);
    assert_eq!(graph.nodes[0].successors, vec![1, 2]);
    assert_eq!(graph.nodes[1].predecessors, vec![0]);
    assert_eq!(graph.nodes[2].predecessors, vec![0]);
    assert!(is_well_formed(&graph));
}

#[test]
fn well_formed_graphs_are_told() {
    let node = |predecessors: Vec<u64>, successors: Vec<u64>| GraphNode { predecessors, successors };
    let functions = |indices: Vec<u64>| vec![GraphFunction { name: "f".to_string(), node_indices: indices }];
    let good = StructureGraph { nodes: vec![node(vec![], vec![1]), node(vec![0], vec![])], functions: functions(vec![0, 1]) };
    assert!(is_well_formed(&good));
    let twice = StructureGraph { nodes: vec![node(vec![], vec![1]), node(vec![0, 0], vec![])], functions: functions(vec![0, 1]) };
    assert!(!is_well_formed(&twice));
    let dangling = StructureGraph { nodes: vec![node(vec![], vec![2]), node(vec![], vec![])], functions: functions(vec![0, 1]) };
    assert!(!is_well_formed(&dangling));
    let unlisted = StructureGraph { nodes: vec![node(vec![], vec![1]), node(vec![0], vec![])], functions: functions(vec![0]) };
    assert!(!is_well_formed(&unlisted));
    let beyond = StructureGraph { nodes: vec![node(vec![], vec![])], functions: functions(vec![0, 3]) };
    assert!(!is_well_formed(&beyond));
    let empty = StructureGraph { nodes: vec![], functions: vec![] };
    assert!(is_well_formed(&empty));
}

#[test]
fn nodes_stand_in_identifier_order() {
    let cfg = ControlFlowGraph {
        functions: vec![
            function("f", vec![block(2, vec![0, 0, 1], 5), block(0, vec![1], NO_SANCOV_INDEX)]),
            function("g", vec![block(1, vec![], 6)]),
        ],
    };
    assert!(is_normalized(&cfg));
    let graph = build_structure_graph(&cfg);
    assert_eq!(graph.nodes.len(), 3);
    assert_eq!(graph.nodes[0].successors, vec![1]);
    assert_eq!(graph.nodes[1].successors, Vec::<u64>::new());
    assert_eq!(graph.nodes[2].successors, vec![0, 1]);
    assert_eq!(graph.nodes[0].predecessors, vec![2]);
    assert_eq!(graph.nodes[1].predecessors, vec![0, 2]);
    assert_eq!(graph.nodes[2].predecessors, Vec::<u64>::new());
    assert_eq!(graph.functions.len(), 2);
    assert_eq!(graph.functions[0].name, "f");
    assert_eq!(graph.functions[0].node_indices, vec![2, 0]);
    assert_eq!(graph.functions[1].name, "g");
    assert_eq!(graph.functions[1].node_indices, vec![1]);
}

#[test]
fn predecessors_mirror_successors() {
    let cfg = ControlFlowGraph {
        functions: vec![function(
            "f",
            vec![
                block(0, vec![1, 2, 1], 0),
                block(1, vec![1, 3], 1),
                block(2, vec![3, 0], 2),
                block(3, vec![], 3),
            ],
        )],
    };
    assert!(is_normalized(&cfg));
    let graph = build_structure_graph(&cfg);
    assert_eq!(graph.nodes[0].successors, vec![1, 2]);
    assert_eq!(graph.nodes[1].predecessors, vec![0, 1]);
    for (n, node) in graph.nodes.iter().enumerate() {
        for (p, other) in graph.nodes.iter().enumerate() {
            assert_eq!(
                node.predecessors.contains(&(p as u64)),
                other.successors.contains(&(n as u64))
            );
        }
    }
}

#[test]
fn graphs_out_of_normal_form_are_told() {
    let gap = ControlFlowGraph { functions: vec![function("f", vec![block(0, vec![], 0), block(2, vec![], 1)])] };
    assert!(!is_normalized(&gap));
    let twice = ControlFlowGraph { functions: vec![function("f", vec![block(0, vec![], 0), block(0, vec![], 1)])] };
    assert!(!is_normalized(&twice));
    let dangling = ControlFlowGraph { functions: vec![function("f", vec![block(0, vec![1], 0)])] };
    assert!(!is_normalized(&dangling));
    let empty = ControlFlowGraph { functions: vec![function("f", vec![])] };
    assert!(is_normalized(&empty));
}

#[test]
fn joined_modules_are_in_normal_form() {
    let first = ControlFlowGraph {
        functions: vec![function("a", vec![block(5, vec![9], 0), block(9, vec![5, 9], 1)])],
    };
    let second = ControlFlowGraph {
        functions: vec![function("b", vec![block(1, vec![], 2)]), function("c", vec![block(0, vec![1], 3)])],
    };
    let joined = concat_control_flow_graph(vec![first, second]);
    assert!(is_normalized(&joined));
    let mut ids: Vec<u64> =
        joined.functions.iter().flat_map(|f| f.basic_blocks.iter().map(|b| b.id)).collect();
    ids.sort();
    assert_eq!(ids, vec![0, 1, 2, 3]);
}

#[test]
fn a_module_with_a_dangling_successor_leaves_a_gap() {
    let only = ControlFlowGraph { functions: vec![function("a", vec![block(0, vec![7], 0), block(1, vec![], 1)])] };
    let joined = concat_control_flow_graph(vec![only]);
    let blocks = &joined.functions[0].basic_blocks;
    assert_eq!(blocks[0].id, 0);
    assert_eq!(blocks[0].successors, vec![1]);
    assert_eq!(blocks[1].id, 2);
    assert!(!is_normalized(&joined));
}
