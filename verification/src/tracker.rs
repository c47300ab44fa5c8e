//! The coverage tracker: which nodes and functions the fuzzers have covered,
//! the frontier of covered nodes with uncovered successors, and the
//! priorities of corpus inputs that derive from it.

use vstd::prelude::*;
use std::collections::{HashMap, HashSet};
use vstd::std_specs::iter::IteratorSpec;
use crate::counting::{count_positive, count_true, lemma_count_positive, lemma_count_positive_sum, lemma_count_true, lemma_count_true_none, lemma_occurrences_prefix, lemma_sum, lemma_sum_entry, lemma_uncovered_count_all, lemma_uncovered_count_cover, lemma_zeros, sum, uncovered_count};
use crate::seqs::occurrences;
use crate::structure::{GraphFunctionView, GraphNode, GraphView, StructureGraph};

verus! {

broadcast use vstd::std_specs::hash::group_hash_axioms;

/// A function as the tracker keeps it: its name and how many of its nodes
/// are covered.
#[derive(Debug)]
pub struct TrackedFunction {
    pub name: String,
    pub covered_nodes: usize,
}

/// The coverage tracker.
pub struct CoverageTracker {
    nodes: Vec<GraphNode>,
    function_index: Vec<usize>,
    covered: Vec<bool>,
    uncovered_successors: Vec<usize>,
    freqs: Vec<usize>,
    functions: Vec<TrackedFunction>,
    frontiers: HashMap<usize, Vec<(u64, u64)>>,
    covered_nodes: usize,
    covered_functions: usize,
    new_functions: Vec<usize>,
    prio_corpuses: HashMap<u64, HashSet<u64>>,
}

/// Mathematical value of a [`CoverageTracker`]. For every node: its
/// successors and predecessors, the index of its function, whether it is
/// covered, how many of its successors are not, and how often it was
/// reported. For every function: its name and the number of its covered
/// nodes. The frontier, from a node index to the pairs of fuzzer and corpus
/// id attributed to the node. The numbers of covered nodes and functions.
/// The functions that the last update covered first. And for every fuzzer
/// the corpus ids that hold a priority other than the default.
pub struct TrackerView {
    pub successors: Seq<Seq<u64>>,
    pub predecessors: Seq<Seq<u64>>,
    pub function_of: Seq<usize>,
    pub covered: Seq<bool>,
    pub uncovered_successors: Seq<usize>,
    pub freqs: Seq<usize>,
    pub function_names: Seq<Seq<char>>,
    pub function_covered: Seq<usize>,
    pub frontier: Map<usize, Seq<(u64, u64)>>,
    pub covered_nodes: usize,
    pub covered_functions: usize,
    pub new_functions: Seq<usize>,
    pub priorities: Map<u64, Set<u64>>,
}

impl TrackerView {
    /// The number of nodes.
    pub open spec fn node_count(self) -> nat {
        self.covered.len()
    }

    /// The tracker is well formed. The per-node sequences have one length;
    /// links name nodes, and a node is a predecessor as often as it has the
    /// other as successor; every node has a function. The counter of
    /// uncovered successors of a node is their number. A node is in the
    /// frontier just if it is covered and has an uncovered successor. The
    /// number of covered nodes is that of the covered flags and the sum of
    /// the functions' counters, and the number of covered functions is that
    /// of the functions with a counter of at least 1.
    pub open spec fn wf(self) -> bool {
        let n = self.node_count();
        &&& self.successors.len() == n
        &&& self.predecessors.len() == n
        &&& self.function_of.len() == n
        &&& self.uncovered_successors.len() == n
        &&& self.freqs.len() == n
        &&& self.function_names.len() == self.function_covered.len()
        &&& forall|i: int, k: int|
            0 <= i < n && 0 <= k < self.successors[i].len() ==> #[trigger] self.successors[i][k] < n
        &&& forall|i: int, k: int|
            0 <= i < n && 0 <= k < self.predecessors[i].len() ==> #[trigger] self.predecessors[i][k] < n
        &&& forall|i: int, p: int|
            0 <= i < n && 0 <= p < n ==> #[trigger] occurrences(self.predecessors[i], p as u64) == #[trigger] occurrences(
                self.successors[p],
                i as u64,
            )
        &&& forall|i: int| 0 <= i < n ==> #[trigger] self.function_of[i] < self.function_covered.len()
        &&& forall|i: int|
            0 <= i < n ==> #[trigger] self.uncovered_successors[i] == uncovered_count(self.successors[i], self.covered)
        &&& forall|x: usize| #[trigger]
            self.frontier.contains_key(x) <==> x < n && self.covered[x as int] && self.uncovered_successors[x as int] > 0
        &&& self.covered_nodes == count_true(self.covered)
        &&& self.covered_nodes == sum(self.function_covered)
        &&& self.covered_functions == count_positive(self.function_covered)
    }
}

/// The counter after one more report: it stops at the largest value.
pub open spec fn next_count(count: usize) -> usize {
    if count < usize::MAX {
        (count + 1) as usize
    } else {
        count
    }
}

/// The function of a node: the last function that lists it, or the first
/// function where none does.
pub open spec fn function_index_of(functions: Seq<GraphFunctionView>, node: int) -> int
    decreases functions.len(),
{
    if functions.len() == 0 {
        0
    } else if functions.last().node_indices.contains(node as u64) {
        functions.len() - 1
    } else {
        function_index_of(functions.drop_last(), node)
    }
}

/// The tracker of a graph before any report: nothing is covered, every
/// successor is uncovered, the frontier is empty and no priority is held.
pub open spec fn initial_view(g: GraphView) -> TrackerView {
    TrackerView {
        successors: g.successor_lists(),
        predecessors: g.nodes.map_values(|n: crate::structure::NodeView| n.predecessors),
        function_of: Seq::new(g.nodes.len(), |i: int| function_index_of(g.functions, i) as usize),
        covered: Seq::new(g.nodes.len(), |i: int| false),
        uncovered_successors: Seq::new(g.nodes.len(), |i: int| g.nodes[i].successors.len() as usize),
        freqs: Seq::new(g.nodes.len(), |i: int| 0usize),
        function_names: g.functions.map_values(|f: GraphFunctionView| f.name),
        function_covered: Seq::new(g.functions.len(), |i: int| 0usize),
        frontier: Map::empty(),
        covered_nodes: 0,
        covered_functions: 0,
        new_functions: Seq::empty(),
        priorities: Map::empty(),
    }
}

/// The tracker without any graph.
pub open spec fn empty_view() -> TrackerView {
    TrackerView {
        successors: Seq::empty(),
        predecessors: Seq::empty(),
        function_of: Seq::empty(),
        covered: Seq::empty(),
        uncovered_successors: Seq::empty(),
        freqs: Seq::empty(),
        function_names: Seq::empty(),
        function_covered: Seq::empty(),
        frontier: Map::empty(),
        covered_nodes: 0,
        covered_functions: 0,
        new_functions: Seq::empty(),
        priorities: Map::empty(),
    }
}

/// The tracker after one report of node `i`. The node's frequency goes up
/// by one. Where the node was covered already, nothing else changes. Else it
/// becomes covered; the counters of covered nodes and of its function go up
/// by one, and where the function had none covered, the counter of covered
/// functions goes up too and the function is noted as new; each predecessor
/// has one uncovered successor less for each time it lists the node; and
/// the frontier is again the covered nodes with an uncovered successor,
/// where a node that enters it has nothing attributed yet.
pub open spec fn after_node(v: TrackerView, i: usize) -> TrackerView {
    let counted = TrackerView { freqs: v.freqs.update(i as int, next_count(v.freqs[i as int])), ..v };
    if v.covered[i as int] {
        counted
    } else {
        let f = v.function_of[i as int];
        let covered = v.covered.update(i as int, true);
        let uncovered = Seq::new(
            v.node_count(),
            |p: int| (v.uncovered_successors[p] - occurrences(v.predecessors[i as int], p as u64)) as usize,
        );
        let first = v.function_covered[f as int] == 0;
        TrackerView {
            covered,
            uncovered_successors: uncovered,
            function_covered: v.function_covered.update(f as int, (v.function_covered[f as int] + 1) as usize),
            covered_nodes: (v.covered_nodes + 1) as usize,
            covered_functions: if first {
                (v.covered_functions + 1) as usize
            } else {
                v.covered_functions
            },
            new_functions: if first {
                v.new_functions.push(f)
            } else {
                v.new_functions
            },
            frontier: Map::new(
                |x: usize| x < v.node_count() && covered[x as int] && uncovered[x as int] > 0,
                |x: usize|
                    if v.frontier.contains_key(x) {
                        v.frontier[x]
                    } else {
                        Seq::empty()
                    },
            ),
            ..counted
        }
    }
}

/// The tracker after the reports of the nodes of `deltas`, one after the
/// other.
pub open spec fn after_nodes(v: TrackerView, deltas: Seq<(usize, u8)>) -> TrackerView
    decreases deltas.len(),
{
    if deltas.len() == 0 {
        v
    } else {
        after_node(after_nodes(v, deltas.drop_last()), deltas.last().0)
    }
}

/// The frontier after the corpus input `corpus_id` of the fuzzer `fuzzer_id`
/// is attributed to each node of `deltas` that is in the frontier, once for
/// each time the node is listed.
pub open spec fn attributed(
    frontier: Map<usize, Seq<(u64, u64)>>,
    deltas: Seq<(usize, u8)>,
    fuzzer_id: u64,
    corpus_id: u64,
) -> Map<usize, Seq<(u64, u64)>>
    decreases deltas.len(),
{
    if deltas.len() == 0 {
        frontier
    } else {
        let before = attributed(frontier, deltas.drop_last(), fuzzer_id, corpus_id);
        let node = deltas.last().0;
        if before.contains_key(node) {
            before.insert(node, before[node].push((fuzzer_id, corpus_id)))
        } else {
            before
        }
    }
}

/// Every node of `deltas` is a node of the tracker.
pub open spec fn deltas_in_range(deltas: Seq<(usize, u8)>, n: nat) -> bool {
    forall|i: int| 0 <= i < deltas.len() ==> (#[trigger] deltas[i]).0 < n
}

/// A node that a function lists has a function.
pub proof fn lemma_function_index_of(functions: Seq<GraphFunctionView>, node: int)
    requires
        exists|f: int, j: int|
            0 <= f < functions.len() && 0 <= j < functions[f].node_indices.len()
                && #[trigger] functions[f].node_indices[j] == node,
        0 <= node <= u64::MAX,
    ensures
        0 <= function_index_of(functions, node) < functions.len(),
    decreases functions.len(),
{
    let (f, j) = choose|f: int, j: int|
        0 <= f < functions.len() && 0 <= j < functions[f].node_indices.len()
            && #[trigger] functions[f].node_indices[j] == node;
    if !functions.last().node_indices.contains(node as u64) {
        assert(f < functions.len() - 1);
        assert(functions.drop_last()[f].node_indices[j] == node);
        lemma_function_index_of(functions.drop_last(), node);
    }
}

/// Reporting nodes keeps a well-formed tracker well formed, with the same
/// graph.
pub proof fn lemma_after_node_wf(v: TrackerView, i: usize)
    requires
        v.wf(),
        i < v.node_count(),
        v.node_count() <= usize::MAX,
    ensures
        after_node(v, i).wf(),
        after_node(v, i).node_count() == v.node_count(),
{
    let w = after_node(v, i);
    let n = v.node_count();
    if !v.covered[i as int] {
        let f = v.function_of[i as int];
        lemma_count_true(v.covered, i as int);
        lemma_count_positive_sum(v.function_covered);
        lemma_sum_entry(v.function_covered, f as int);
        lemma_sum(v.function_covered, f as int);
        lemma_count_positive(v.function_covered, f as int);
        assert forall|p: int| 0 <= p < n implies #[trigger] w.uncovered_successors[p] == uncovered_count(
            w.successors[p],
            w.covered,
        ) by {
            lemma_uncovered_count_cover(v.successors[p], v.covered, i as int);
            assert(occurrences(v.predecessors[i as int], p as u64) == occurrences(v.successors[p], i as u64));
        }
    }
}

/// Reporting a list of nodes keeps a well-formed tracker well formed.
pub proof fn lemma_after_nodes_wf(v: TrackerView, deltas: Seq<(usize, u8)>)
    requires
        v.wf(),
        deltas_in_range(deltas, v.node_count()),
        v.node_count() <= usize::MAX,
    ensures
        after_nodes(v, deltas).wf(),
        after_nodes(v, deltas).node_count() == v.node_count(),
    decreases deltas.len(),
{
    if deltas.len() > 0 {
        let front = deltas.drop_last();
        assert forall|i: int| 0 <= i < front.len() implies (#[trigger] front[i]).0 < v.node_count() by {
            assert(front[i] == deltas[i]);
        }
        lemma_after_nodes_wf(v, front);
        assert(deltas[deltas.len() - 1].0 < v.node_count());
        lemma_after_node_wf(after_nodes(v, front), deltas.last().0);
    }
}

/// Attributing corpus inputs changes no node's membership in the frontier.
pub proof fn lemma_attributed_dom(
    frontier: Map<usize, Seq<(u64, u64)>>,
    deltas: Seq<(usize, u8)>,
    fuzzer_id: u64,
    corpus_id: u64,
)
    ensures
        forall|x: usize|
            attributed(frontier, deltas, fuzzer_id, corpus_id).contains_key(x) <==> frontier.contains_key(x),
    decreases deltas.len(),
{
    if deltas.len() > 0 {
        lemma_attributed_dom(frontier, deltas.drop_last(), fuzzer_id, corpus_id);
    }
}

/// Attributing corpus inputs keeps a well-formed tracker well formed.
pub proof fn lemma_attribution_wf(v: TrackerView, deltas: Seq<(usize, u8)>, fuzzer_id: u64, corpus_id: u64)
    requires
        v.wf(),
    ensures
        (TrackerView { frontier: attributed(v.frontier, deltas, fuzzer_id, corpus_id), ..v }).wf(),
{
    let w = TrackerView { frontier: attributed(v.frontier, deltas, fuzzer_id, corpus_id), ..v };
    lemma_attributed_dom(v.frontier, deltas, fuzzer_id, corpus_id);
    assert forall|x: usize| #[trigger]
        w.frontier.contains_key(x) <==> x < w.node_count() && w.covered[x as int] && w.uncovered_successors[x as int]
            > 0 by {
        assert(w.frontier.contains_key(x) <==> v.frontier.contains_key(x));
    }
}

impl View for CoverageTracker {
    type V = TrackerView;

    closed spec fn view(&self) -> TrackerView {
        TrackerView {
            successors: self.nodes@.map_values(|n: GraphNode| n.successors@),
            predecessors: self.nodes@.map_values(|n: GraphNode| n.predecessors@),
            function_of: self.function_index@,
            covered: self.covered@,
            uncovered_successors: self.uncovered_successors@,
            freqs: self.freqs@,
            function_names: self.functions@.map_values(|f: TrackedFunction| f.name@),
            function_covered: self.functions@.map_values(|f: TrackedFunction| f.covered_nodes),
            frontier: self.frontiers@.map_values(|l: Vec<(u64, u64)>| l@),
            covered_nodes: self.covered_nodes,
            covered_functions: self.covered_functions,
            new_functions: self.new_functions@,
            priorities: self.prio_corpuses@.map_values(|s: HashSet<u64>| s@),
        }
    }
}

impl CoverageTracker {
    /// The tracker is well formed.
    pub open spec fn wf(&self) -> bool {
        self@.wf()
    }

    /// A tracker without a graph.
    pub fn new() -> (tracker: CoverageTracker)
        ensures
            tracker.wf(),
            tracker@ == empty_view(),
    {
        let tracker = CoverageTracker {
            nodes: Vec::new(),
            function_index: Vec::new(),
            covered: Vec::new(),
            uncovered_successors: Vec::new(),
            freqs: Vec::new(),
            functions: Vec::new(),
            frontiers: HashMap::new(),
            covered_nodes: 0,
            covered_functions: 0,
            new_functions: Vec::new(),
            prio_corpuses: HashMap::new(),
        };
        proof {
            let v = tracker@;
            let e = empty_view();
            assert(v.successors =~= e.successors);
            assert(v.predecessors =~= e.predecessors);
            assert(v.function_names =~= e.function_names);
            assert(v.function_covered =~= e.function_covered);
            assert(v.frontier =~= e.frontier);
            assert(v.priorities =~= e.priorities);
        }
        tracker
    }

    /// Takes one report of a node.
    fn cover_node(&mut self, node_index: usize)
        requires
            old(self)@.wf(),
            node_index < old(self)@.node_count(),
        ensures
            final(self)@ == after_node(old(self)@, node_index),
    {
        let ghost v = self@;
        let ghost n = v.node_count();
        let ghost want = after_node(v, node_index);
        let ghost held = self.frontiers@;
        proof {
            assert(n == self.covered.len());
        }
        let frequency: usize = self.freqs[node_index];
        if frequency < usize::MAX {
            self.freqs[node_index] = frequency + 1;
        }
        proof {
            assert(self.freqs@ =~= want.freqs);
        }
        if self.covered[node_index] {
            proof {
                assert(self@.frontier =~= want.frontier);
                assert(self@.priorities =~= want.priorities);
            }
            return ;
        }
        let function_index: usize = self.function_index[node_index];
        proof {
            lemma_count_true(v.covered, node_index as int);
            lemma_count_positive_sum(v.function_covered);
            lemma_sum_entry(v.function_covered, function_index as int);
            lemma_count_positive(v.function_covered, function_index as int);
            assert(v.function_covered[function_index as int] == self.functions@[function_index as int].covered_nodes);
        }
        self.covered[node_index] = true;
        self.covered_nodes += 1;
        let count: usize = self.functions[function_index].covered_nodes + 1;
        self.functions[function_index].covered_nodes = count;
        if count == 1 {
            self.covered_functions += 1;
            self.new_functions.push(function_index);
        }
        if self.uncovered_successors[node_index] > 0 {
            self.frontiers.insert(node_index, Vec::new());
        }
        let predecessor_count: usize = self.nodes[node_index].predecessors.len();
        let ghost preds = v.predecessors[node_index as int];
        let ghost flags = v.covered.update(node_index as int, true);
        let mut j: usize = 0;
        proof {
            assert(preds.take(0) =~= Seq::<u64>::empty());
            assert(self@.function_covered =~= want.function_covered);
            assert(self@.function_names =~= want.function_names);
            assert(self@.priorities =~= want.priorities);
            assert(!v.frontier.contains_key(node_index));
            assert forall|x: usize| #[trigger]
                self.frontiers@.contains_key(x) <==> x < n && flags[x as int] && self.uncovered_successors@[x as int]
                    > 0 by {
                assert(v.frontier.contains_key(x) <==> held.contains_key(x));
                if x != node_index {
                    assert(self.frontiers@.contains_key(x) <==> held.contains_key(x));
                }
            }
            assert forall|x: usize| #[trigger] self.frontiers@.contains_key(x) implies self.frontiers@[x]@
                == if v.frontier.contains_key(x) {
                v.frontier[x]
            } else {
                Seq::<(u64, u64)>::empty()
            } by {
                assert(v.frontier.contains_key(x) <==> held.contains_key(x));
                if x != node_index {
                    assert(self.frontiers@[x] == held[x]);
                }
            }
        }
        while j < predecessor_count
            invariant
                j <= predecessor_count,
                v.wf(),
                n == v.node_count(),
                n <= usize::MAX,
                node_index < n,
                !v.covered[node_index as int],
                want == after_node(v, node_index),
                preds == v.predecessors[node_index as int],
                predecessor_count == preds.len(),
                flags == v.covered.update(node_index as int, true),
                self.nodes@.len() == n,
                self@.successors == v.successors,
                self@.predecessors == v.predecessors,
                self.function_index@ == want.function_of,
                self.covered@ == flags,
                self.freqs@ == want.freqs,
                self@.function_names == want.function_names,
                self@.function_covered == want.function_covered,
                self.covered_nodes == want.covered_nodes,
                self.covered_functions == want.covered_functions,
                self.new_functions@ == want.new_functions,
                self@.priorities == want.priorities,
                self.uncovered_successors@.len() == n,
                forall|p: int|
                    0 <= p < n ==> #[trigger] self.uncovered_successors@[p] == v.uncovered_successors[p] - occurrences(
                        preds.take(j as int),
                        p as u64,
                    ),
                forall|x: usize| #[trigger]
                    self.frontiers@.contains_key(x) <==> x < n && flags[x as int] && self.uncovered_successors@[x as int]
                        > 0,
                forall|x: usize| #[trigger]
                    self.frontiers@.contains_key(x) ==> self.frontiers@[x]@ == if v.frontier.contains_key(x) {
                        v.frontier[x]
                    } else {
                        Seq::<(u64, u64)>::empty()
                    },
            decreases predecessor_count - j,
        {
            let predecessor: usize = self.nodes[node_index].predecessors[j] as usize;
            proof {
                assert(self@.predecessors[node_index as int] == self.nodes@[node_index as int].predecessors@);
                assert(preds[j as int] == predecessor);
                assert(predecessor < n);
                lemma_occurrences_prefix(preds, j as int, predecessor as u64);
                lemma_uncovered_count_cover(v.successors[predecessor as int], v.covered, node_index as int);
                assert(occurrences(preds, predecessor as u64) == occurrences(
                    v.successors[predecessor as int],
                    node_index as u64,
                ));
                assert forall|p: int| 0 <= p < n implies #[trigger] occurrences(preds.take(j + 1), p as u64)
                    == occurrences(preds.take(j as int), p as u64) + if p == predecessor {
                    1nat
                } else {
                    0nat
                } by {
                    lemma_occurrences_prefix(preds, j as int, p as u64);
                }
            }
            let left: usize = self.uncovered_successors[predecessor] - 1;
            self.uncovered_successors[predecessor] = left;
            if left == 0 {
                self.frontiers.remove(&predecessor);
            }
            j += 1;
        }
        proof {
            assert(preds.take(j as int) =~= preds);
            assert(self.uncovered_successors@ =~= want.uncovered_successors);
            assert(self@.frontier =~= want.frontier);
        }
    }

    /// Takes the reports of the nodes of `bit_counters`, one after the other.
    fn track_nodes(&mut self, bit_counters: &[(usize, u8)])
        requires
            old(self)@.wf(),
            deltas_in_range(bit_counters@, old(self)@.node_count()),
        ensures
            final(self)@ == after_nodes(old(self)@, bit_counters@),
            final(self)@.wf(),
            final(self)@.node_count() == old(self)@.node_count(),
    {
        let ghost v = self@;
        let mut i: usize = 0;
        proof {
            assert(bit_counters@.take(0) =~= Seq::<(usize, u8)>::empty());
            assert(v.node_count() == self.covered.len());
        }
        while i < bit_counters.len()
            invariant
                i <= bit_counters.len(),
                v.wf(),
                v.node_count() <= usize::MAX,
                deltas_in_range(bit_counters@, v.node_count()),
                self@ == after_nodes(v, bit_counters@.take(i as int)),
                self@.wf(),
                self@.node_count() == v.node_count(),
            decreases bit_counters.len() - i,
        {
            let node_index: usize = bit_counters[i].0;
            proof {
                assert(bit_counters@.take(i + 1).drop_last() =~= bit_counters@.take(i as int));
                lemma_after_node_wf(self@, node_index);
            }
            self.cover_node(node_index);
            i += 1;
        }
        proof {
            assert(bit_counters@.take(i as int) =~= bit_counters@);
        }
    }

    /// Attributes a corpus input to the frontier nodes among `bit_counters`.
    fn attribute(&mut self, bit_counters: &[(usize, u8)], fuzzer_id: u64, corpus_id: u64)
        ensures
            final(self)@ == (TrackerView {
                frontier: attributed(old(self)@.frontier, bit_counters@, fuzzer_id, corpus_id),
                ..old(self)@
            }),
    {
        let ghost v = self@;
        let mut i: usize = 0;
        proof {
            assert(bit_counters@.take(0) =~= Seq::<(usize, u8)>::empty());
        }
        while i < bit_counters.len()
            invariant
                i <= bit_counters.len(),
                self@ == (TrackerView {
                    frontier: attributed(v.frontier, bit_counters@.take(i as int), fuzzer_id, corpus_id),
                    ..v
                }),
            decreases bit_counters.len() - i,
        {
            let node_index: usize = bit_counters[i].0;
            let ghost before = self@;
            proof {
                assert(bit_counters@.take(i + 1).drop_last() =~= bit_counters@.take(i as int));
            }
            match self.frontiers.remove(&node_index) {
                Some(mut frontier) => {
                    frontier.push((fuzzer_id, corpus_id));
                    self.frontiers.insert(node_index, frontier);
                },
                None => {},
            }
            proof {
                assert(self@.frontier =~= attributed(v.frontier, bit_counters@.take(i + 1), fuzzer_id, corpus_id));
            }
            i += 1;
        }
        proof {
            assert(bit_counters@.take(i as int) =~= bit_counters@);
        }
    }
}

/// The tracker of a well-formed graph before any report is well formed.
pub proof fn lemma_initial_view_wf(g: GraphView)
    requires
        g.wf(),
        g.nodes.len() <= usize::MAX,
        forall|i: int| 0 <= i < g.nodes.len() ==> (#[trigger] g.nodes[i]).successors.len() <= usize::MAX,
    ensures
        initial_view(g).wf(),
{
    let v = initial_view(g);
    let n = g.nodes.len();
    lemma_count_true_none(v.covered);
    lemma_zeros(v.function_covered);
    assert forall|i: int| 0 <= i < n implies #[trigger] v.function_of[i] < v.function_covered.len() by {
        assert(g.node_listed(i));
        lemma_function_index_of(g.functions, i);
    }
    assert forall|i: int| 0 <= i < n implies #[trigger] v.uncovered_successors[i] == uncovered_count(
        v.successors[i],
        v.covered,
    ) by {
        assert(v.successors[i] == g.nodes[i].successors);
        assert forall|k: int| 0 <= k < v.successors[i].len() implies v.successors[i][k] < v.covered.len() by {
            assert(g.nodes[i].successors[k] < n);
        }
        lemma_uncovered_count_all(v.successors[i], v.covered);
    }
}

/// The largest weight that a corpus input can get.
pub const MAX_WEIGHT: u32 = 1000;

/// The weight of a frontier node that was reported `frequency` times, where
/// the most reported frontier node was reported `top` times: the whole part
/// of `top / frequency`, at least 1 and at most `MAX_WEIGHT`.
pub open spec fn weight(frequency: usize, top: usize) -> u32 {
    if frequency == 0 || top / frequency >= MAX_WEIGHT {
        MAX_WEIGHT
    } else if top / frequency < 1 {
        1
    } else {
        (top / frequency) as u32
    }
}

/// `top` is the largest frequency of a frontier node, or 1 where none is
/// larger.
pub open spec fn is_top(v: TrackerView, top: usize) -> bool {
    &&& top >= 1
    &&& forall|x: usize| #[trigger] v.frontier.contains_key(x) ==> v.freqs[x as int] <= top
    &&& top == 1 || exists|x: usize| #[trigger] v.frontier.contains_key(x) && v.freqs[x as int] == top
}

/// The largest frequency of a frontier node among the first `count` nodes,
/// or 1 where none is larger.
pub open spec fn top_through(v: TrackerView, count: nat) -> usize
    decreases count,
{
    if count == 0 {
        1
    } else {
        let before = top_through(v, (count - 1) as nat);
        let x = (count - 1) as usize;
        if v.frontier.contains_key(x) && v.freqs[x as int] > before {
            v.freqs[x as int]
        } else {
            before
        }
    }
}

/// The largest frequency of a frontier node, or 1 where none is larger.
pub open spec fn top_frequency(v: TrackerView) -> usize {
    top_through(v, v.freqs.len())
}

/// The corpus input `corpus_id` of the fuzzer `fuzzer_id` is attributed to
/// the frontier node `x`.
pub open spec fn attributes(v: TrackerView, fuzzer_id: u64, corpus_id: u64, x: usize) -> bool {
    v.frontier.contains_key(x) && v.frontier[x].contains((fuzzer_id, corpus_id))
}

/// The corpus input gets a priority: it held one that was not the default,
/// or it is attributed to a frontier node.
pub open spec fn has_priority(v: TrackerView, fuzzer_id: u64, corpus_id: u64) -> bool {
    ||| v.priorities.contains_key(fuzzer_id) && v.priorities[fuzzer_id].contains(corpus_id)
    ||| exists|x: usize| #[trigger] attributes(v, fuzzer_id, corpus_id, x)
}

/// `w` is the largest weight of a frontier node to which the corpus input is
/// attributed, or 1 where none is larger.
pub open spec fn is_priority(v: TrackerView, fuzzer_id: u64, corpus_id: u64, w: u32) -> bool {
    let top = top_frequency(v);
    &&& w >= 1
    &&& forall|x: usize| #[trigger] attributes(v, fuzzer_id, corpus_id, x) ==> weight(v.freqs[x as int], top) <= w
    &&& w == 1 || exists|x: usize| #[trigger]
        attributes(v, fuzzer_id, corpus_id, x) && weight(v.freqs[x as int], top) == w
}

/// The corpus inputs of a fuzzer whose priority is not the default.
pub open spec fn boosted(v: TrackerView, fuzzer_id: u64) -> Set<u64> {
    Set::new(|corpus_id: u64| has_priority(v, fuzzer_id, corpus_id) && !is_priority(v, fuzzer_id, corpus_id, 1))
}

/// The list holds the priority of every corpus input of the fuzzer that
/// gets one, once, and nothing else.
pub open spec fn lists_priorities(v: TrackerView, fuzzer_id: u64, list: Seq<(u64, u32)>) -> bool {
    &&& forall|i: int, j: int| 0 <= i < j < list.len() ==> (#[trigger] list[i]).0 != (#[trigger] list[j]).0
    &&& forall|i: int|
        0 <= i < list.len() ==> has_priority(v, fuzzer_id, (#[trigger] list[i]).0) && is_priority(
            v,
            fuzzer_id,
            list[i].0,
            list[i].1,
        )
    &&& forall|corpus_id: u64| #[trigger]
        has_priority(v, fuzzer_id, corpus_id) ==> exists|i: int| 0 <= i < list.len() && (#[trigger] list[i]).0 == corpus_id
}

/// The tracker after the nodes of `deltas` are reported and, where a corpus
/// input is given, attributed to the frontier nodes among them; before the
/// priorities are derived.
pub open spec fn after_reports(v: TrackerView, fuzzer_id: u64, deltas: Seq<(usize, u8)>, corpus_id: Option<u64>) -> TrackerView {
    let counted = after_nodes(TrackerView { new_functions: Seq::empty(), ..v }, deltas);
    match corpus_id {
        Some(id) => TrackerView { frontier: attributed(counted.frontier, deltas, fuzzer_id, id), ..counted },
        None => counted,
    }
}

/// The tracker after one update: the nodes are reported, the corpus input
/// is attributed, and the fuzzer holds the corpus inputs whose priority is
/// then not the default.
pub open spec fn after_update(v: TrackerView, fuzzer_id: u64, deltas: Seq<(usize, u8)>, corpus_id: Option<u64>) -> TrackerView {
    let reported = after_reports(v, fuzzer_id, deltas, corpus_id);
    TrackerView { priorities: reported.priorities.insert(fuzzer_id, boosted(reported, fuzzer_id)), ..reported }
}

/// What holds of the largest frequency among the first `count` nodes.
pub proof fn lemma_top_through(v: TrackerView, count: nat)
    requires
        count <= v.freqs.len(),
        v.freqs.len() <= usize::MAX,
    ensures
        top_through(v, count) >= 1,
        forall|x: usize| x < count && #[trigger] v.frontier.contains_key(x) ==> v.freqs[x as int] <= top_through(v, count),
        top_through(v, count) == 1 || exists|x: usize|
            x < count && #[trigger] v.frontier.contains_key(x) && v.freqs[x as int] == top_through(v, count),
    decreases count,
{
    if count > 0 {
        let before = top_through(v, (count - 1) as nat);
        let last = (count - 1) as usize;
        lemma_top_through(v, (count - 1) as nat);
        if !(v.frontier.contains_key(last) && v.freqs[last as int] > before) && before != 1 {
            let x = choose|x: usize| x < count - 1 && #[trigger] v.frontier.contains_key(x) && v.freqs[x as int] == before;
            assert(x < count && v.frontier.contains_key(x));
        }
    }
}

/// Where every frontier node is a node, the largest frequency is that of a
/// frontier node or 1, and no frontier node has a larger one.
pub proof fn lemma_top_frequency(v: TrackerView)
    requires
        forall|x: usize| #[trigger] v.frontier.contains_key(x) ==> x < v.freqs.len(),
        v.freqs.len() <= usize::MAX,
    ensures
        is_top(v, top_frequency(v)),
{
    lemma_top_through(v, v.freqs.len());
    let top = top_frequency(v);
    if top != 1 {
        let x = choose|x: usize| x < v.freqs.len() && #[trigger] v.frontier.contains_key(x) && v.freqs[x as int] == top;
        assert(v.frontier.contains_key(x) && v.freqs[x as int] == top);
    }
}

/// There is one largest frequency.
pub proof fn lemma_top_unique(v: TrackerView, top: usize, other: usize)
    requires
        is_top(v, top),
        is_top(v, other),
    ensures
        top == other,
{
    if top != 1 {
        let x = choose|x: usize| #[trigger] v.frontier.contains_key(x) && v.freqs[x as int] == top;
        assert(v.freqs[x as int] <= other);
    }
    if other != 1 {
        let x = choose|x: usize| #[trigger] v.frontier.contains_key(x) && v.freqs[x as int] == other;
        assert(v.freqs[x as int] <= top);
    }
}

/// A corpus input has one priority, and it is between 1 and the largest
/// weight.
pub proof fn lemma_priority_unique(v: TrackerView, fuzzer_id: u64, corpus_id: u64, w: u32, other: u32)
    requires
        is_priority(v, fuzzer_id, corpus_id, w),
        is_priority(v, fuzzer_id, corpus_id, other),
    ensures
        w == other,
        1 <= w <= MAX_WEIGHT,
{
    let top = top_frequency(v);
    if w != 1 {
        let x = choose|x: usize| #[trigger]
            attributes(v, fuzzer_id, corpus_id, x) && weight(v.freqs[x as int], top) == w;
        assert(weight(v.freqs[x as int], top) <= other);
    }
    if other != 1 {
        let x = choose|x: usize| #[trigger]
            attributes(v, fuzzer_id, corpus_id, x) && weight(v.freqs[x as int], top) == other;
        assert(weight(v.freqs[x as int], top) <= w);
    }
}

/// The weight of a frontier node.
pub fn node_weight(frequency: usize, top: usize) -> (w: u32)
    ensures
        w == weight(frequency, top),
        1 <= w <= MAX_WEIGHT,
{
    if frequency == 0 {
        return MAX_WEIGHT;
    }
    let ratio: usize = top / frequency;
    if ratio >= MAX_WEIGHT as usize {
        MAX_WEIGHT
    } else if ratio < 1 {
        1
    } else {
        ratio as u32
    }
}

/// The priority that the first `count` frontier nodes of `items` give a
/// corpus input, starting from `base`: `w` is at least `base`, at least the
/// weight of each of these nodes to which the input is attributed, and it is
/// `base` or the weight of such a node.
pub open spec fn priority_through(
    v: TrackerView,
    top: usize,
    items: Seq<(&usize, &Vec<(u64, u64)>)>,
    count: int,
    fuzzer_id: u64,
    corpus_id: u64,
    w: u32,
) -> bool {
    &&& w >= 1
    &&& forall|j: int|
        0 <= j < count && (*(#[trigger] items[j]).1)@.contains((fuzzer_id, corpus_id)) ==> weight(
            v.freqs[*items[j].0 as int],
            top,
        ) <= w
    &&& w == 1 || exists|j: int|
        0 <= j < count && (*(#[trigger] items[j]).1)@.contains((fuzzer_id, corpus_id)) && weight(
            v.freqs[*items[j].0 as int],
            top,
        ) == w
}

/// The corpus input is attributed to one of the first `count` frontier nodes
/// of `items`.
pub open spec fn attributed_through(
    items: Seq<(&usize, &Vec<(u64, u64)>)>,
    count: int,
    fuzzer_id: u64,
    corpus_id: u64,
) -> bool {
    exists|j: int| 0 <= j < count && (*(#[trigger] items[j]).1)@.contains((fuzzer_id, corpus_id))
}

/// Raises the priority of every corpus input that `frontier` attributes to
/// the fuzzer to at least `w`; an input without a priority starts at 1.
fn raise_priorities(new_prio: &mut HashMap<u64, u32>, frontier: &Vec<(u64, u64)>, fuzzer_id: u64, w: u32)
    requires
        w >= 1,
        forall|c: u64| #[trigger] old(new_prio)@.contains_key(c) ==> old(new_prio)@[c] >= 1,
    ensures
        forall|c: u64| #[trigger]
            final(new_prio)@.contains_key(c) <==> old(new_prio)@.contains_key(c) || frontier@.contains((fuzzer_id, c)),
        forall|c: u64| #[trigger]
            final(new_prio)@.contains_key(c) ==> final(new_prio)@[c] == if frontier@.contains((fuzzer_id, c)) {
                if old(new_prio)@.contains_key(c) && old(new_prio)@[c] > w {
                    old(new_prio)@[c]
                } else {
                    w
                }
            } else {
                old(new_prio)@[c]
            },
{
    let ghost start = new_prio@;
    let mut k: usize = 0;
    while k < frontier.len()
        invariant
            k <= frontier.len(),
            w >= 1,
            forall|c: u64| #[trigger] start.contains_key(c) ==> start[c] >= 1,
            forall|c: u64| #[trigger]
                new_prio@.contains_key(c) <==> start.contains_key(c) || frontier@.take(k as int).contains((fuzzer_id, c)),
            forall|c: u64| #[trigger]
                new_prio@.contains_key(c) ==> new_prio@[c] == if frontier@.take(k as int).contains((fuzzer_id, c)) {
                    if start.contains_key(c) && start[c] > w {
                        start[c]
                    } else {
                        w
                    }
                } else {
                    start[c]
                },
        decreases frontier.len() - k,
    {
        let corpus_fuzzer_id: u64 = frontier[k].0;
        let corpus_id: u64 = frontier[k].1;
        let ghost done = frontier@.take(k as int);
        let ghost next = frontier@.take(k + 1);
        if corpus_fuzzer_id == fuzzer_id {
            let current: u32 = match new_prio.get(&corpus_id) {
                Some(found) => *found,
                None => 1,
            };
            let raised: u32 = if current > w {
                current
            } else {
                w
            };
            new_prio.insert(corpus_id, raised);
        }
        proof {
            assert(next =~= done.push(frontier@[k as int]));
            assert forall|c: u64| next.contains((fuzzer_id, c)) <==> (done.contains((fuzzer_id, c)) || (corpus_fuzzer_id
                == fuzzer_id && corpus_id == c)) by {
                if done.contains((fuzzer_id, c)) {
                    let t = choose|t: int| 0 <= t < done.len() && done[t] == (fuzzer_id, c);
                    assert(next[t] == (fuzzer_id, c));
                }
                if corpus_fuzzer_id == fuzzer_id && corpus_id == c {
                    assert(next[k as int] == (fuzzer_id, c));
                }
                if next.contains((fuzzer_id, c)) {
                    let t = choose|t: int| 0 <= t < next.len() && next[t] == (fuzzer_id, c);
                    if t < k {
                        assert(done[t] == (fuzzer_id, c));
                    }
                }
            }
        }
        k += 1;
    }
    proof {
        assert(frontier@.take(k as int) =~= frontier@);
    }
}

impl CoverageTracker {
    /// Takes the graph of a fuzzer. Only the first fuzzer, the one with the
    /// id 0, sets the tracker up: for its graph nothing is covered yet, every
    /// successor is uncovered, and the function of a node is the last one that
    /// lists it. The graph of any other fuzzer is taken to be the same and
    /// changes nothing.
    pub fn create_fuzzer(&mut self, fuzzer_id: u64, struct_graph: &StructureGraph)
        requires
            struct_graph@.wf(),
        ensures
            fuzzer_id == 0 ==> final(self)@ == initial_view(struct_graph@) && final(self).wf(),
            fuzzer_id != 0 ==> final(self)@ == old(self)@,
    {
        if fuzzer_id != 0 {
            return ;
        }
        let ghost g = struct_graph@;
        let count: usize = struct_graph.nodes.len();
        let mut nodes: Vec<GraphNode> = Vec::new();
        let mut function_index: Vec<usize> = Vec::new();
        let mut covered: Vec<bool> = Vec::new();
        let mut uncovered_successors: Vec<usize> = Vec::new();
        let mut freqs: Vec<usize> = Vec::new();
        let mut i: usize = 0;
        while i < count
            invariant
                i <= count,
                count == struct_graph.nodes@.len(),
                g == struct_graph@,
                nodes@.len() == i,
                function_index@.len() == i,
                covered@.len() == i,
                uncovered_successors@.len() == i,
                freqs@.len() == i,
                forall|x: int|
                    0 <= x < i ==> (#[trigger] nodes@[x]).successors@ == g.nodes[x].successors && nodes@[x].predecessors@
                        == g.nodes[x].predecessors,
                forall|x: int| 0 <= x < i ==> #[trigger] function_index@[x] == 0,
                forall|x: int| 0 <= x < i ==> !#[trigger] covered@[x],
                forall|x: int| 0 <= x < i ==> #[trigger] uncovered_successors@[x] == g.nodes[x].successors.len(),
                forall|x: int| 0 <= x < i ==> #[trigger] freqs@[x] == 0,
                forall|x: int| 0 <= x < i ==> (#[trigger] g.nodes[x]).successors.len() <= usize::MAX,
            decreases count - i,
        {
            let node = &struct_graph.nodes[i];
            assert(g.nodes[i as int] == node@);
            let successors: Vec<u64> = node.successors.clone();
            let predecessors: Vec<u64> = node.predecessors.clone();
            assert(successors@ =~= node.successors@);
            assert(predecessors@ =~= node.predecessors@);
            uncovered_successors.push(node.successors.len());
            nodes.push(GraphNode { predecessors, successors });
            function_index.push(0);
            covered.push(false);
            freqs.push(0);
            i += 1;
        }
        let ghost fs = g.functions;
        let mut functions: Vec<TrackedFunction> = Vec::new();
        let function_count: usize = struct_graph.functions.len();
        let mut f: usize = 0;
        proof {
            assert(fs.take(0) =~= Seq::<GraphFunctionView>::empty());
        }
        while f < function_count
            invariant
                f <= function_count,
                function_count == struct_graph.functions@.len(),
                function_count == g.functions.len(),
                g == struct_graph@,
                g.wf(),
                fs == g.functions,
                count == g.nodes.len(),
                function_index@.len() == count,
                functions@.len() == f,
                forall|x: int|
                    0 <= x < f ==> (#[trigger] functions@[x]).name@ == fs[x].name && functions@[x].covered_nodes == 0,
                forall|x: int| 0 <= x < count ==> #[trigger] function_index@[x] == function_index_of(fs.take(f as int), x),
            decreases function_count - f,
        {
            let function = &struct_graph.functions[f];
            let ghost listed = fs[f as int].node_indices;
            let ghost earlier = fs.take(f as int);
            assert(function@ == fs[f as int]);
            functions.push(TrackedFunction { name: function.name.clone(), covered_nodes: 0 });
            let mut j: usize = 0;
            proof {
                assert(listed.take(0) =~= Seq::<u64>::empty());
            }
            while j < function.node_indices.len()
                invariant
                    j <= function.node_indices.len(),
                    f < function_count,
                    function_count == g.functions.len(),
                    g.wf(),
                    fs == g.functions,
                    function@ == fs[f as int],
                    listed == fs[f as int].node_indices,
                    earlier == fs.take(f as int),
                    count == g.nodes.len(),
                    function_index@.len() == count,
                    forall|x: int|
                        0 <= x < count ==> #[trigger] function_index@[x] == if listed.take(j as int).contains(x as u64) {
                            f as int
                        } else {
                            function_index_of(earlier, x)
                        },
                decreases function.node_indices.len() - j,
            {
                let listed_node: u64 = function.node_indices[j];
                proof {
                    assert(listed_node == fs[f as int].node_indices[j as int]);
                    assert(listed_node < count);
                    let done = listed.take(j as int);
                    let next = listed.take(j + 1);
                    assert(next =~= done.push(listed_node));
                    assert forall|y: u64| #[trigger] next.contains(y) <==> done.contains(y) || y == listed_node by {
                        if done.contains(y) {
                            let t = choose|t: int| 0 <= t < done.len() && done[t] == y;
                            assert(next[t] == y);
                        }
                        if y == listed_node {
                            assert(next[j as int] == y);
                        }
                        if next.contains(y) {
                            let t = choose|t: int| 0 <= t < next.len() && next[t] == y;
                            if t < j {
                                assert(done[t] == y);
                            }
                        }
                    }
                }
                function_index[listed_node as usize] = f;
                j += 1;
            }
            proof {
                assert(listed.take(j as int) =~= listed);
                assert(fs.take(f + 1).drop_last() =~= earlier);
                assert(fs.take(f + 1).last() == fs[f as int]);
            }
            f += 1;
        }
        proof {
            assert(fs.take(f as int) =~= fs);
        }
        *self = CoverageTracker {
            nodes,
            function_index,
            covered,
            uncovered_successors,
            freqs,
            functions,
            frontiers: HashMap::new(),
            covered_nodes: 0,
            covered_functions: 0,
            new_functions: Vec::new(),
            prio_corpuses: HashMap::new(),
        };
        proof {
            let v = self@;
            let want = initial_view(g);
            assert(v.successors =~= want.successors);
            assert(v.predecessors =~= want.predecessors);
            assert(v.function_of =~= want.function_of);
            assert(v.covered =~= want.covered);
            assert(v.uncovered_successors =~= want.uncovered_successors);
            assert(v.freqs =~= want.freqs);
            assert(v.function_names =~= want.function_names);
            assert(v.function_covered =~= want.function_covered);
            assert(v.frontier =~= want.frontier);
            assert(v.priorities =~= want.priorities);
            lemma_initial_view_wf(g);
        }
    }

    /// Derives the priorities of the corpus inputs of a fuzzer from the
    /// frontier, and keeps for the fuzzer those that are not the default.
    fn derive_priorities(&mut self, fuzzer_id: u64) -> (list: Vec<(u64, u32)>)
        requires
            old(self)@.wf(),
        ensures
            final(self)@ == (TrackerView {
                priorities: old(self)@.priorities.insert(fuzzer_id, boosted(old(self)@, fuzzer_id)),
                ..old(self)@
            }),
            lists_priorities(old(self)@, fuzzer_id, list@),
    {
        let ghost v = self@;
        let ghost held = self.frontiers@;
        let mut top: usize = 1;
        for (node_index, frontier) in it: self.frontiers.iter()
            invariant
                v == self@,
                v.wf(),
                held == self.frontiers@,
                forall|j: int|
                    0 <= j < it.seq().len() ==> held.contains_key(*(#[trigger] it.seq()[j]).0) && held[*it.seq()[j].0]
                        == *it.seq()[j].1,
                forall|x: usize| #[trigger]
                    held.contains_key(x) ==> exists|j: int| 0 <= j < it.seq().len() && *(#[trigger] it.seq()[j]).0 == x,
                top >= 1,
                forall|j: int| 0 <= j < it.index() ==> v.freqs[*(#[trigger] it.seq()[j]).0 as int] <= top,
                top == 1 || exists|j: int| 0 <= j < it.index() && v.freqs[*(#[trigger] it.seq()[j]).0 as int] == top,
        {
            let ghost at = it.index();
            let ghost items = it.seq();
            assert(items[at] == (node_index, frontier));
            assert(v.frontier.contains_key(*node_index));
            let frequency: usize = self.freqs[*node_index];
            if frequency > top {
                top = frequency;
                assert(v.freqs[*items[at].0 as int] == top);
            } else {
                proof {
                    if top != 1 {
                        let j = choose|j: int| 0 <= j < at && v.freqs[*(#[trigger] items[j]).0 as int] == top;
                        assert(0 <= j < at + 1);
                    }
                }
            }
        }
        proof {
            let items = self.frontiers.iter().remaining();
            assert(is_top(v, top)) by {
                assert forall|x: usize| #[trigger] v.frontier.contains_key(x) implies v.freqs[x as int] <= top by {
                    assert(held.contains_key(x));
                    let j = choose|j: int| 0 <= j < items.len() && *(#[trigger] items[j]).0 == x;
                    assert(v.freqs[*items[j].0 as int] <= top);
                }
                if top != 1 {
                    let j = choose|j: int| 0 <= j < items.len() && v.freqs[*(#[trigger] items[j]).0 as int] == top;
                    assert(held.contains_key(*items[j].0));
                    assert(v.frontier.contains_key(*items[j].0));
                }
            }
            assert(v.freqs.len() == self.freqs.len());
            lemma_top_frequency(v);
            lemma_top_unique(v, top, top_frequency(v));
        }
        let previous: HashSet<u64> = match self.prio_corpuses.remove(&fuzzer_id) {
            Some(found) => found,
            None => HashSet::new(),
        };
        let ghost prev = previous@;
        let ghost others = self.prio_corpuses@;
        proof {
            assert(forall|c: u64|
                prev.contains(c) <==> v.priorities.contains_key(fuzzer_id) && v.priorities[fuzzer_id].contains(c));
        }
        let mut new_prio_corpuses: HashMap<u64, u32> = HashMap::new();
        proof {
            let items = previous.iter().remaining();
            assert forall|j: int| 0 <= j < items.len() implies prev.contains(*#[trigger] items[j]) by {
                assert(items.unref()[j] == *items[j]);
                assert(items.unref().to_set().contains(items.unref()[j]));
            }
            assert forall|c: u64| #[trigger] prev.contains(c) implies exists|j: int|
                0 <= j < items.len() && *#[trigger] items[j] == c by {
                assert(items.unref().to_set().contains(c));
                let j = choose|j: int| 0 <= j < items.unref().len() && items.unref()[j] == c;
                assert(*items[j] == c);
            }
            assert forall|x: usize| #[trigger] held.contains_key(x) implies x < v.freqs.len() by {
                assert(v.frontier.contains_key(x));
            }
        }
        for corpus_id in it: previous.iter()
            invariant
                prev == previous@,
                forall|j: int| 0 <= j < it.seq().len() ==> prev.contains(*#[trigger] it.seq()[j]),
                forall|c: u64| #[trigger] prev.contains(c) ==> exists|j: int| 0 <= j < it.seq().len() && *#[trigger] it.seq()[j] == c,
                forall|c: u64| #[trigger]
                    new_prio_corpuses@.contains_key(c) <==> exists|j: int| 0 <= j < it.index() && *#[trigger] it.seq()[j] == c,
                forall|c: u64| #[trigger] new_prio_corpuses@.contains_key(c) ==> new_prio_corpuses@[c] == 1,
        {
            let ghost at = it.index();
            let ghost items = it.seq();
            let ghost before = new_prio_corpuses@;
            assert(items[at] == corpus_id);
            new_prio_corpuses.insert(*corpus_id, 1);
            proof {
                assert forall|c: u64| #[trigger]
                    new_prio_corpuses@.contains_key(c) <==> exists|j: int| 0 <= j < at + 1 && *#[trigger] items[j] == c by {
                    if before.contains_key(c) {
                        let j = choose|j: int| 0 <= j < at && *#[trigger] items[j] == c;
                        assert(0 <= j < at + 1);
                    }
                    if exists|j: int| 0 <= j < at + 1 && *#[trigger] items[j] == c {
                        let j = choose|j: int| 0 <= j < at + 1 && *#[trigger] items[j] == c;
                        if j < at {
                            assert(before.contains_key(c));
                        }
                    }
                }
            }
        }
        proof {
            let items = previous.iter().remaining();
            assert forall|c: u64| #[trigger] new_prio_corpuses@.contains_key(c) <==> prev.contains(c) by {
                if new_prio_corpuses@.contains_key(c) {
                    let j = choose|j: int| 0 <= j < items.len() && *#[trigger] items[j] == c;
                    assert(prev.contains(*items[j]));
                }
            }
        }
        for (node_index, frontier) in it: self.frontiers.iter()
            invariant
                v.wf(),
                held == self.frontiers@,
                self.freqs@ == v.freqs,
                forall|x: usize| #[trigger] held.contains_key(x) ==> x < v.freqs.len(),
                forall|j: int|
                    0 <= j < it.seq().len() ==> held.contains_key(*(#[trigger] it.seq()[j]).0) && held[*it.seq()[j].0]
                        == *it.seq()[j].1,
                forall|x: usize| #[trigger]
                    held.contains_key(x) ==> exists|j: int| 0 <= j < it.seq().len() && *(#[trigger] it.seq()[j]).0 == x,
                forall|c: u64| #[trigger]
                    new_prio_corpuses@.contains_key(c) <==> prev.contains(c) || attributed_through(
                        it.seq(),
                        it.index(),
                        fuzzer_id,
                        c,
                    ),
                forall|c: u64| #[trigger]
                    new_prio_corpuses@.contains_key(c) ==> priority_through(
                        v,
                        top,
                        it.seq(),
                        it.index(),
                        fuzzer_id,
                        c,
                        new_prio_corpuses@[c],
                    ),
        {
            let ghost at = it.index();
            let ghost items = it.seq();
            let ghost before = new_prio_corpuses@;
            assert(items[at] == (node_index, frontier));
            assert(held.contains_key(*node_index));
            let w: u32 = node_weight(self.freqs[*node_index], top);
            raise_priorities(&mut new_prio_corpuses, frontier, fuzzer_id, w);
            proof {
                assert forall|c: u64| attributed_through(items, at + 1, fuzzer_id, c) <==> (attributed_through(
                    items,
                    at,
                    fuzzer_id,
                    c,
                ) || frontier@.contains((fuzzer_id, c))) by {
                    if attributed_through(items, at, fuzzer_id, c) {
                        let j = choose|j: int| 0 <= j < at && (*(#[trigger] items[j]).1)@.contains((fuzzer_id, c));
                        assert(0 <= j < at + 1);
                    }
                    if frontier@.contains((fuzzer_id, c)) {
                        assert((*items[at].1)@.contains((fuzzer_id, c)));
                    }
                    if attributed_through(items, at + 1, fuzzer_id, c) {
                        let j = choose|j: int| 0 <= j < at + 1 && (*(#[trigger] items[j]).1)@.contains((fuzzer_id, c));
                        if j < at {
                            assert(attributed_through(items, at, fuzzer_id, c));
                        }
                    }
                }
                assert forall|c: u64| #[trigger] new_prio_corpuses@.contains_key(c) implies priority_through(
                    v,
                    top,
                    items,
                    at + 1,
                    fuzzer_id,
                    c,
                    new_prio_corpuses@[c],
                ) by {
                    let now = new_prio_corpuses@[c];
                    if before.contains_key(c) {
                        let was = before[c];
                        assert(priority_through(v, top, items, at, fuzzer_id, c, was));
                        if was != 1 {
                            let j = choose|j: int|
                                0 <= j < at && (*(#[trigger] items[j]).1)@.contains((fuzzer_id, c)) && weight(
                                    v.freqs[*items[j].0 as int],
                                    top,
                                ) == was;
                            assert(0 <= j < at + 1);
                        }
                    } else {
                        assert(!attributed_through(items, at, fuzzer_id, c));
                    }
                    if frontier@.contains((fuzzer_id, c)) {
                        assert((*items[at].1)@.contains((fuzzer_id, c)) && weight(v.freqs[*items[at].0 as int], top) == w);
                    }
                    assert forall|j: int|
                        0 <= j < at + 1 && (*(#[trigger] items[j]).1)@.contains((fuzzer_id, c)) implies weight(
                        v.freqs[*items[j].0 as int],
                        top,
                    ) <= now by {
                        if j < at {
                            assert(attributed_through(items, at, fuzzer_id, c));
                        }
                    }
                }
            }
        }
        proof {
            let items = self.frontiers.iter().remaining();
            assert forall|c: u64, x: usize| attributes(v, fuzzer_id, c, x) implies exists|j: int|
                0 <= j < items.len() && *(#[trigger] items[j]).0 == x && (*items[j].1)@.contains((fuzzer_id, c)) by {
                assert(held.contains_key(x));
                let j = choose|j: int| 0 <= j < items.len() && *(#[trigger] items[j]).0 == x;
                assert(held[*items[j].0] == *items[j].1);
            }
            assert forall|c: u64| #[trigger] new_prio_corpuses@.contains_key(c) <==> has_priority(v, fuzzer_id, c) by {
                if attributed_through(items, items.len() as int, fuzzer_id, c) {
                    let j = choose|j: int| 0 <= j < items.len() && (*(#[trigger] items[j]).1)@.contains((fuzzer_id, c));
                    assert(attributes(v, fuzzer_id, c, *items[j].0));
                }
                if exists|x: usize| #[trigger] attributes(v, fuzzer_id, c, x) {
                    let x = choose|x: usize| #[trigger] attributes(v, fuzzer_id, c, x);
                    let j = choose|j: int|
                        0 <= j < items.len() && *(#[trigger] items[j]).0 == x && (*items[j].1)@.contains((fuzzer_id, c));
                    assert(attributed_through(items, items.len() as int, fuzzer_id, c));
                }
            }
            assert forall|c: u64| #[trigger] new_prio_corpuses@.contains_key(c) implies is_priority(
                v,
                fuzzer_id,
                c,
                new_prio_corpuses@[c],
            ) by {
                let w = new_prio_corpuses@[c];
                assert(priority_through(v, top, items, items.len() as int, fuzzer_id, c, w));
                assert(is_priority(v, fuzzer_id, c, w)) by {
                    assert forall|x: usize| #[trigger] attributes(v, fuzzer_id, c, x) implies weight(
                        v.freqs[x as int],
                        top,
                    ) <= w by {
                        let j = choose|j: int|
                            0 <= j < items.len() && *(#[trigger] items[j]).0 == x && (*items[j].1)@.contains(
                                (fuzzer_id, c),
                            );
                        assert(weight(v.freqs[*items[j].0 as int], top) <= w);
                    }
                    if w != 1 {
                        let j = choose|j: int|
                            0 <= j < items.len() && (*(#[trigger] items[j]).1)@.contains((fuzzer_id, c)) && weight(
                                v.freqs[*items[j].0 as int],
                                top,
                            ) == w;
                        assert(attributes(v, fuzzer_id, c, *items[j].0));
                    }
                }
            }
        }
        let ghost new_prio = new_prio_corpuses@;
        let mut kept: HashSet<u64> = HashSet::new();
        let mut list: Vec<(u64, u32)> = Vec::new();
        for (corpus_id, priority) in it: new_prio_corpuses.iter()
            invariant
                new_prio == new_prio_corpuses@,
                it.seq().no_duplicates(),
                forall|j: int|
                    0 <= j < it.seq().len() ==> new_prio.contains_key(*(#[trigger] it.seq()[j]).0) && new_prio[*it.seq()[j].0]
                        == *it.seq()[j].1,
                forall|c: u64| #[trigger]
                    new_prio.contains_key(c) ==> exists|j: int| 0 <= j < it.seq().len() && *(#[trigger] it.seq()[j]).0 == c,
                list@.len() == it.index(),
                forall|j: int|
                    0 <= j < it.index() ==> (#[trigger] list@[j]).0 == *it.seq()[j].0 && list@[j].1 == *it.seq()[j].1,
                forall|c: u64|
                    kept@.contains(c) <==> exists|j: int|
                        0 <= j < it.index() && *(#[trigger] it.seq()[j]).0 == c && *it.seq()[j].1 != 1,
        {
            let ghost at = it.index();
            let ghost items = it.seq();
            let ghost before = kept@;
            assert(items[at] == (corpus_id, priority));
            if *priority != 1 {
                kept.insert(*corpus_id);
            }
            list.push((*corpus_id, *priority));
            proof {
                assert forall|c: u64| kept@.contains(c) <==> exists|j: int|
                    0 <= j < at + 1 && *(#[trigger] items[j]).0 == c && *items[j].1 != 1 by {
                    if before.contains(c) {
                        let j = choose|j: int| 0 <= j < at && *(#[trigger] items[j]).0 == c && *items[j].1 != 1;
                        assert(0 <= j < at + 1);
                    }
                    if exists|j: int| 0 <= j < at + 1 && *(#[trigger] items[j]).0 == c && *items[j].1 != 1 {
                        let j = choose|j: int| 0 <= j < at + 1 && *(#[trigger] items[j]).0 == c && *items[j].1 != 1;
                        if j < at {
                            assert(before.contains(c));
                        }
                    }
                }
            }
        }
        proof {
            let items = new_prio_corpuses.iter().remaining();
            assert(kept@ =~= boosted(v, fuzzer_id)) by {
                assert forall|c: u64| kept@.contains(c) <==> boosted(v, fuzzer_id).contains(c) by {
                    if kept@.contains(c) {
                        let j = choose|j: int| 0 <= j < items.len() && *(#[trigger] items[j]).0 == c && *items[j].1 != 1;
                        assert(new_prio.contains_key(*items[j].0));
                        if is_priority(v, fuzzer_id, c, 1) {
                            lemma_priority_unique(v, fuzzer_id, c, new_prio[c], 1);
                        }
                    }
                    if boosted(v, fuzzer_id).contains(c) {
                        assert(new_prio.contains_key(c));
                        let j = choose|j: int| 0 <= j < items.len() && *(#[trigger] items[j]).0 == c;
                        assert(*items[j].1 == new_prio[c]);
                    }
                }
            }
            assert forall|i: int, j: int| 0 <= i < j < list@.len() implies (#[trigger] list@[i]).0 != (#[trigger] list@[j]).0 by {
                if list@[i].0 == list@[j].0 {
                    assert(*items[i].0 == *items[j].0);
                    assert(*items[i].1 == *items[j].1);
                    assert(items[i] == items[j]);
                }
            }
            assert forall|i: int| 0 <= i < list@.len() implies has_priority(v, fuzzer_id, (#[trigger] list@[i]).0)
                && is_priority(v, fuzzer_id, list@[i].0, list@[i].1) by {
                assert(new_prio.contains_key(*items[i].0));
            }
            assert forall|c: u64| #[trigger] has_priority(v, fuzzer_id, c) implies exists|i: int|
                0 <= i < list@.len() && (#[trigger] list@[i]).0 == c by {
                assert(new_prio.contains_key(c));
                let j = choose|j: int| 0 <= j < items.len() && *(#[trigger] items[j]).0 == c;
                assert(list@[j].0 == c);
            }
        }
        self.prio_corpuses.insert(fuzzer_id, kept);
        proof {
            assert(self@.priorities =~= v.priorities.insert(fuzzer_id, boosted(v, fuzzer_id))) by {
                assert forall|k: u64| self@.priorities.contains_key(k) <==> v.priorities.insert(
                    fuzzer_id,
                    boosted(v, fuzzer_id),
                ).contains_key(k) by {
                    if k != fuzzer_id {
                        assert(self.prio_corpuses@.contains_key(k) <==> others.contains_key(k));
                    }
                }
                assert forall|k: u64| self@.priorities.contains_key(k) implies #[trigger] self@.priorities[k]
                    == v.priorities.insert(fuzzer_id, boosted(v, fuzzer_id))[k] by {
                    if k != fuzzer_id {
                        assert(self.prio_corpuses@[k] == others[k]);
                    }
                }
            }
            assert(self@.frontier =~= v.frontier);
        }
        list
    }
}

impl CoverageTracker {
    /// Says whether every node of `bit_counters` is a node of the tracker.
    pub fn takes(&self, bit_counters: &[(usize, u8)]) -> (ok: bool)
        ensures
            ok == deltas_in_range(bit_counters@, self@.node_count()),
    {
        let count: usize = self.covered.len();
        let mut i: usize = 0;
        while i < bit_counters.len()
            invariant
                i <= bit_counters.len(),
                count == self@.node_count(),
                forall|x: int| 0 <= x < i ==> (#[trigger] bit_counters@[x]).0 < count,
            decreases bit_counters.len() - i,
        {
            if bit_counters[i].0 >= count {
                return false;
            }
            i += 1;
        }
        true
    }

    /// Takes the node updates of one batch of a fuzzer. Each listed node is
    /// reported once: its frequency goes up, and where it was not covered
    /// it becomes so, with the counters and the frontier following. Where a
    /// corpus input is given, it is attributed to each listed node that is
    /// then in the frontier. The result holds, for the fuzzer, the priority
    /// of each of its corpus inputs that held a priority other than the
    /// default or is attributed to a frontier node: the largest weight of a
    /// frontier node it is attributed to, at least 1. The fuzzer then holds
    /// the inputs whose priority is not 1. Every input that held a priority
    /// is listed again, so none is listed with the priority 0.
    pub fn update_nodes(&mut self, fuzzer_id: u64, bit_counters: &[(usize, u8)], corpus_id: Option<u64>) -> (list:
        Vec<(u64, u32)>)
        requires
            old(self).wf(),
            deltas_in_range(bit_counters@, old(self)@.node_count()),
        ensures
            final(self).wf(),
            final(self)@ == after_update(old(self)@, fuzzer_id, bit_counters@, corpus_id),
            lists_priorities(after_reports(old(self)@, fuzzer_id, bit_counters@, corpus_id), fuzzer_id, list@),
    {
        let ghost v = self@;
        self.new_functions = Vec::new();
        proof {
            assert(self@ == (TrackerView { new_functions: Seq::empty(), ..v }));
            assert(self@.wf());
        }
        self.track_nodes(bit_counters);
        match corpus_id {
            Some(id) => {
                proof {
                    lemma_attribution_wf(self@, bit_counters@, fuzzer_id, id);
                }
                self.attribute(bit_counters, fuzzer_id, id);
            },
            None => {},
        }
        self.derive_priorities(fuzzer_id)
    }

    /// The number of nodes.
    pub fn node_count(&self) -> (count: usize)
        ensures
            count == self@.node_count(),
    {
        self.covered.len()
    }

    /// The number of covered nodes.
    pub fn covered_nodes(&self) -> (count: usize)
        ensures
            count == self@.covered_nodes,
    {
        self.covered_nodes
    }

    /// The number of functions with a covered node.
    pub fn covered_functions(&self) -> (count: usize)
        ensures
            count == self@.covered_functions,
    {
        self.covered_functions
    }

    /// Whether a node is covered.
    pub fn is_covered(&self, node_index: usize) -> (covered: bool)
        requires
            node_index < self@.node_count(),
        ensures
            covered == self@.covered[node_index as int],
    {
        self.covered[node_index]
    }

    /// The number of successors of a node that are not covered.
    pub fn uncovered_successors(&self, node_index: usize) -> (count: usize)
        requires
            self.wf(),
            node_index < self@.node_count(),
        ensures
            count == self@.uncovered_successors[node_index as int],
    {
        self.uncovered_successors[node_index]
    }

    /// How often a node was reported.
    pub fn frequency(&self, node_index: usize) -> (count: usize)
        requires
            self.wf(),
            node_index < self@.node_count(),
        ensures
            count == self@.freqs[node_index as int],
    {
        self.freqs[node_index]
    }

    /// Whether a node is in the frontier.
    pub fn in_frontier(&self, node_index: usize) -> (inside: bool)
        ensures
            inside == self@.frontier.contains_key(node_index),
    {
        self.frontiers.contains_key(&node_index)
    }

    /// The number of nodes in the frontier.
    pub fn frontier_len(&self) -> (count: usize)
        ensures
            count == self@.frontier.dom().len(),
    {
        proof {
            assert(self@.frontier.dom() =~= self.frontiers@.dom());
        }
        self.frontiers.len()
    }

    /// The number of covered nodes of a function.
    pub fn function_covered_nodes(&self, function_index: usize) -> (count: usize)
        requires
            function_index < self@.function_covered.len(),
        ensures
            count == self@.function_covered[function_index as int],
    {
        self.functions[function_index].covered_nodes
    }

    /// The indices of the functions that the last update covered first.
    pub fn new_functions(&self) -> (list: Vec<usize>)
        ensures
            list@ == self@.new_functions,
    {
        let mut list: Vec<usize> = Vec::new();
        let mut i: usize = 0;
        while i < self.new_functions.len()
            invariant
                i <= self.new_functions.len(),
                list@ == self.new_functions@.take(i as int),
            decreases self.new_functions.len() - i,
        {
            list.push(self.new_functions[i]);
            proof {
                assert(self.new_functions@.take(i + 1) =~= self.new_functions@.take(i as int).push(
                    self.new_functions@[i as int],
                ));
            }
            i += 1;
        }
        proof {
            assert(self.new_functions@.take(i as int) =~= self.new_functions@);
        }
        list
    }
}

/// In a well-formed tracker as many functions count as covered as have a
/// counter of at least 1, and the nodes counted as covered are as many as
/// the counters of the functions add up to, and as many as are covered.
pub proof fn lemma_counters_agree(v: TrackerView)
    requires
        v.wf(),
    ensures
        v.covered_functions == count_positive(v.function_covered),
        v.covered_nodes == sum(v.function_covered),
        v.covered_nodes == count_true(v.covered),
{
}

/// In a well-formed tracker a node is in the frontier just if it is covered
/// and a successor of it is not: its counter of uncovered successors, which
/// is their number, is above 0.
pub proof fn lemma_frontier_is_boundary(v: TrackerView, x: usize)
    requires
        v.wf(),
        x < v.node_count(),
    ensures
        v.frontier.contains_key(x) <==> v.covered[x as int] && v.uncovered_successors[x as int] > 0,
        v.uncovered_successors[x as int] == uncovered_count(v.successors[x as int], v.covered),
{
}

/// Every update keeps a well-formed tracker well formed.
pub proof fn lemma_after_update_wf(v: TrackerView, fuzzer_id: u64, deltas: Seq<(usize, u8)>, corpus_id: Option<u64>)
    requires
        v.wf(),
        v.node_count() <= usize::MAX,
        deltas_in_range(deltas, v.node_count()),
    ensures
        after_update(v, fuzzer_id, deltas, corpus_id).wf(),
{
    let start = TrackerView { new_functions: Seq::empty(), ..v };
    assert(start.wf());
    lemma_after_nodes_wf(start, deltas);
    match corpus_id {
        Some(id) => {
            lemma_attribution_wf(after_nodes(start, deltas), deltas, fuzzer_id, id);
        },
        None => {},
    }
    let reported = after_reports(v, fuzzer_id, deltas, corpus_id);
    assert(reported.wf());
}

} // verus!
