use collector::observer::Observer;
use collector::structure::{GraphFunction, GraphNode, StructureGraph};
use collector::tracker::{node_weight, CoverageTracker, MAX_WEIGHT};

fn node(predecessors: Vec<u64>, successors: Vec<u64>) -> GraphNode {
    GraphNode { predecessors, successors }
}

fn fork() -> StructureGraph {
    StructureGraph {
        nodes: vec![node(vec![], vec![1, 2]), node(vec![0], vec![]), node(vec![0], vec![])],
        functions: vec![
            GraphFunction { name: "main".to_string(), node_indices: vec![0, 1] },
            GraphFunction { name: "leaf".to_string(), node_indices: vec![2] },
        ],
    }
}

fn two_edges() -> StructureGraph {
    StructureGraph {
        nodes: vec![
            node(vec![], vec![1]),
            node(vec![0], vec![]),
            node(vec![], vec![3]),
            node(vec![2], vec![]),
        ],
        functions: vec![GraphFunction { name: "f".to_string(), node_indices: vec![0, 1, 2, 3] }],
    }
}

fn tracker_of(graph: &StructureGraph) -> CoverageTracker {
    let mut tracker = CoverageTracker::new();
    tracker.create_fuzzer(0, graph);
    tracker
}

fn frontier(tracker: &CoverageTracker) -> Vec<usize> {
    (0..tracker.node_count()).filter(|&n| tracker.in_frontier(n)).collect()
}

fn sorted(mut list: Vec<(u64, u32)>) -> Vec<(u64, u32)> {
    list.sort();
    list
}

fn check_counters(tracker: &CoverageTracker, functions: usize) {
    let covered = (0..tracker.node_count()).filter(|&n| tracker.is_covered(n)).count();
    assert_eq!(tracker.covered_nodes(), covered);
    let per_function: Vec<usize> = (0..functions).map(|f| tracker.function_covered_nodes(f)).collect();
    assert_eq!(tracker.covered_nodes(), per_function.iter().sum::<usize>());
    assert_eq!(tracker.covered_functions(), per_function.iter().filter(|&&c| c >= 1).count());
    for n in 0..tracker.node_count() {
        assert_eq!(tracker.in_frontier(n), tracker.is_covered(n) && tracker.uncovered_successors(n) > 0);
    }
    assert_eq!(tracker.frontier_len(), frontier(tracker).len());
}

#[test]
fn a_new_tracker_is_empty() {
    let tracker = CoverageTracker::new();
    assert_eq!(tracker.node_count(), 0);
    assert_eq!(tracker.covered_nodes(), 0);
    assert_eq!(tracker.covered_functions(), 0);
    assert_eq!(tracker.frontier_len(), 0);
}

#[test]
fn the_first_fuzzer_sets_the_tracker_up() {
    let tracker = tracker_of(&fork());
    assert_eq!(tracker.node_count(), 3);
    assert_eq!(tracker.covered_nodes(), 0);
    assert_eq!(tracker.uncovered_successors(0), 2);
    assert_eq!(tracker.uncovered_successors(1), 0);
    assert_eq!(tracker.frequency(0), 0);
    assert!(!tracker.is_covered(0));
    assert!(frontier(&tracker).is_empty());
    check_counters(&tracker, 2);
}

#[test]
fn a_later_fuzzer_changes_nothing() {
    let mut tracker = tracker_of(&fork());
    tracker.update_nodes(0, &[(0, 1)], None);
    tracker.create_fuzzer(1, &two_edges());
    assert_eq!(tracker.node_count(), 3);
    assert_eq!(tracker.covered_nodes(), 1);
    assert!(tracker.is_covered(0));
}

#[test]
fn the_frontier_follows_the_coverage() {
    let mut tracker = tracker_of(&fork());
    tracker.update_nodes(0, &[(0, 1)], None);
    assert_eq!(frontier(&tracker), vec![0]);
    assert_eq!(tracker.covered_nodes(), 1);
    assert_eq!(tracker.covered_functions(), 1);
    assert_eq!(tracker.new_functions(), vec![0]);
    check_counters(&tracker, 2);
    tracker.update_nodes(0, &[(1, 1)], None);
    assert_eq!(frontier(&tracker), vec![0]);
    assert_eq!(tracker.uncovered_successors(0), 1);
    assert_eq!(tracker.covered_functions(), 1);
    assert!(tracker.new_functions().is_empty());
    check_counters(&tracker, 2);
    tracker.update_nodes(0, &[(2, 1)], None);
    assert_eq!(tracker.uncovered_successors(0), 0);
    assert!(frontier(&tracker).is_empty());
    assert_eq!(tracker.covered_nodes(), 3);
    assert_eq!(tracker.covered_functions(), 2);
    assert_eq!(tracker.new_functions(), vec![1]);
    check_counters(&tracker, 2);
}

#[test]
fn a_covered_node_only_counts_again() {
    let mut tracker = tracker_of(&fork());
    tracker.update_nodes(0, &[(0, 1), (0, 3), (0, 7)], None);
    assert_eq!(tracker.frequency(0), 3);
    assert_eq!(tracker.covered_nodes(), 1);
    assert_eq!(tracker.function_covered_nodes(0), 1);
    assert_eq!(tracker.uncovered_successors(0), 2);
    check_counters(&tracker, 2);
}

#[test]
fn a_node_that_leads_to_itself_leaves_the_frontier_at_once() {
    let graph = StructureGraph {
        nodes: vec![node(vec![0], vec![0])],
        functions: vec![GraphFunction { name: "f".to_string(), node_indices: vec![0] }],
    };
    let mut tracker = tracker_of(&graph);
    assert_eq!(tracker.uncovered_successors(0), 1);
    tracker.update_nodes(0, &[(0, 1)], None);
    assert!(tracker.is_covered(0));
    assert_eq!(tracker.uncovered_successors(0), 0);
    assert!(!tracker.in_frontier(0));
    check_counters(&tracker, 1);
}

#[test]
fn a_successor_listed_twice_counts_twice() {
    let graph = StructureGraph {
        nodes: vec![node(vec![], vec![1, 2, 1]), node(vec![0, 0], vec![]), node(vec![0], vec![])],
        functions: vec![GraphFunction { name: "f".to_string(), node_indices: vec![0, 1, 2] }],
    };
    let mut tracker = tracker_of(&graph);
    tracker.update_nodes(0, &[(0, 1), (1, 1)], None);
    assert_eq!(tracker.uncovered_successors(0), 1);
    assert_eq!(frontier(&tracker), vec![0]);
    check_counters(&tracker, 1);
}

#[test]
fn rare_frontier_nodes_raise_the_priority() {
    let mut tracker = tracker_of(&two_edges());
    let first = tracker.update_nodes(0, &[(0, 1)], Some(7));
    assert_eq!(first, vec![(7, 1)]);
    let second = tracker.update_nodes(0, &[(2, 1); 10], Some(9));
    assert_eq!(tracker.frequency(0), 1);
    assert_eq!(tracker.frequency(2), 10);
    assert_eq!(sorted(second), vec![(7, 10), (9, 1)]);
    let third = tracker.update_nodes(0, &[], None);
    assert_eq!(sorted(third), vec![(7, 10), (9, 1)]);
    check_counters(&tracker, 1);
}

#[test]
fn a_held_priority_falls_back_to_the_default() {
    let mut tracker = tracker_of(&two_edges());
    tracker.update_nodes(0, &[(0, 1)], Some(7));
    tracker.update_nodes(0, &[(2, 1), (2, 1), (2, 1)], Some(9));
    let list = tracker.update_nodes(0, &[(1, 1)], None);
    assert!(!tracker.in_frontier(0));
    assert_eq!(sorted(list), vec![(7, 1), (9, 1)]);
    let later = tracker.update_nodes(0, &[], None);
    assert_eq!(later, vec![(9, 1)]);
}

#[test]
fn priorities_are_kept_by_fuzzer() {
    let mut tracker = tracker_of(&two_edges());
    tracker.update_nodes(0, &[(0, 1)], Some(7));
    let other = tracker.update_nodes(1, &[(2, 1), (2, 1)], Some(8));
    assert_eq!(other, vec![(8, 1)]);
    let own = tracker.update_nodes(0, &[], None);
    assert_eq!(own, vec![(7, 2)]);
}

#[test]
fn nodes_outside_the_frontier_get_nothing_attributed() {
    let mut tracker = tracker_of(&two_edges());
    let list = tracker.update_nodes(0, &[(1, 1)], Some(4));
    assert!(tracker.is_covered(1));
    assert!(!tracker.in_frontier(1));
    assert!(list.is_empty());
}

#[test]
fn the_weight_is_the_whole_part_of_the_ratio() {
    assert_eq!(node_weight(1, 1), 1);
    assert_eq!(node_weight(1, 10), 10);
    assert_eq!(node_weight(3, 10), 3);
    assert_eq!(node_weight(10, 10), 1);
    assert_eq!(node_weight(11, 10), 1);
    assert_eq!(node_weight(1, 999), 999);
    assert_eq!(node_weight(1, 1000), MAX_WEIGHT);
    assert_eq!(node_weight(2, 5000), MAX_WEIGHT);
    assert_eq!(node_weight(0, 5), MAX_WEIGHT);
    assert_eq!(MAX_WEIGHT, 1000);
}

#[test]
fn the_tracker_takes_checked_updates_as_an_observer() {
    let mut tracker = CoverageTracker::new();
    Observer::create_fuzzer(&mut tracker, 0, &fork());
    assert!(tracker.takes(&[(0, 1), (2, 1)]));
    assert!(!tracker.takes(&[(0, 1), (3, 1)]));
    let refused = Observer::update_nodes(&mut tracker, 0, &[(0, 1), (3, 1)], Some(5));
    assert!(refused.is_empty());
    assert_eq!(tracker.covered_nodes(), 0);
    assert_eq!(tracker.frequency(0), 0);
    let taken = Observer::update_nodes(&mut tracker, 0, &[(0, 1)], Some(5));
    assert_eq!(taken, vec![(5, 1)]);
    assert_eq!(tracker.covered_nodes(), 1);
}
