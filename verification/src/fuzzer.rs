//! The per-process coverage engine: it keeps a bit-counter for every node
//! and credits the nodes between instrumented blocks that a batch covered.

use vstd::prelude::*;
use std::collections::HashMap;
use vstd::std_specs::iter::IteratorSpec;
use crate::bits::{batch_bits, bit_set, feature_bit, feature_index, lemma_batch_bits_unreported, lemma_or_bits, lemma_same_bits, reported};
use crate::cfg::{BlockView, ControlFlowGraph, FunctionView, NO_SANCOV_INDEX, blocks_of};
use crate::seqs::dedup_indices;
use crate::structure::{GraphNode, StructureGraph};
use crate::walk::{edge_key, edge_table, lemma_edge_table_sound, lemma_path_length, lemma_push_no_duplicates, lemma_record_all_concat, lists_in_range, path_in_range, record, record_all, table_sound, walk_stops, walks, walks_of_sources, walks_through};

verus! {

broadcast use vstd::std_specs::hash::group_hash_axioms;

/// The successor lists of the nodes, in node order.
pub open spec fn successor_lists_of(nodes: Seq<GraphNode>) -> Seq<Seq<u64>> {
    nodes.map_values(|n: GraphNode| n.successors@)
}

/// The table that a two-level map of sancov edges stands for: the path kept
/// under the lower sancov index and, below it, the higher one. The engine
/// keeps the table in this form because its hashed keys are plain integers.
pub open spec fn table_of(dict: Map<u32, HashMap<u32, Vec<usize>>>) -> Map<(u32, u32), Seq<usize>> {
    Map::new(
        |key: (u32, u32)| dict.contains_key(key.0) && dict[key.0]@.contains_key(key.1),
        |key: (u32, u32)| dict[key.0]@[key.1]@,
    )
}

/// The marks of a walk: exactly the nodes on `path` carry the sancov index
/// of the walk's source, all others carry no mark.
pub open spec fn marks_path(marks: Seq<u32>, path: Seq<usize>, source_sancov_index: u32) -> bool {
    forall|x: int|
        0 <= x < marks.len() ==> #[trigger] marks[x] == if path.contains(x as usize) {
            source_sancov_index
        } else {
            NO_SANCOV_INDEX
        }
}

/// No node carries a sancov index that is the mark of no instrumentation.
pub open spec fn sancov_proper(sancov: Map<u64, u32>) -> bool {
    forall|k: u64| #[trigger] sancov.contains_key(k) ==> sancov[k] != NO_SANCOV_INDEX
}

/// Appends `path` to what the table holds under `(lo, hi)` and removes
/// consecutive repeats from the result.
fn record_path(dict: &mut HashMap<u32, HashMap<u32, Vec<usize>>>, lo: u32, hi: u32, path: &Vec<usize>)
    ensures
        table_of(final(dict)@) == record(table_of(old(dict)@), (lo, hi), path@),
{
    let ghost before = dict@;
    let mut inner: HashMap<u32, Vec<usize>> = match dict.remove(&lo) {
        Some(found) => found,
        None => HashMap::new(),
    };
    let ghost inner_before = inner@;
    let mut edge_path: Vec<usize> = match inner.remove(&hi) {
        Some(found) => found,
        None => Vec::new(),
    };
    let ghost held = edge_path@;
    let mut i: usize = 0;
    while i < path.len()
        invariant
            i <= path.len(),
            edge_path@ == held + path@.take(i as int),
        decreases path.len() - i,
    {
        edge_path.push(path[i]);
        proof {
            assert(path@.take(i + 1) =~= path@.take(i as int).push(path@[i as int]));
        }
        i += 1;
    }
    proof {
        assert(path@.take(i as int) =~= path@);
    }
    dedup_indices(&mut edge_path);
    inner.insert(hi, edge_path);
    dict.insert(lo, inner);
    proof {
        let t0 = table_of(before);
        let t1 = table_of(dict@);
        let want = record(t0, (lo, hi), path@);
        assert(before.contains_key(lo) ==> inner_before == before[lo]@);
        assert(!before.contains_key(lo) ==> inner_before == Map::<u32, Vec<usize>>::empty());
        assert forall|key: (u32, u32)| t1.contains_key(key) <==> want.contains_key(key) by {
            if key.0 == lo && key.1 != hi {
                assert(dict@[lo]@.contains_key(key.1) <==> inner_before.contains_key(key.1));
            }
        }
        assert forall|key: (u32, u32)| t1.contains_key(key) implies #[trigger] t1[key] == want[key] by {
            if key.0 == lo && key.1 != hi {
                assert(dict@[lo]@[key.1] == inner_before[key.1]);
            }
        }
        assert(t1 =~= want);
    }
}

/// A node of the engine: its eight coverage bits.
#[derive(Debug)]
pub struct Node {
    pub bit_counter: u8,
}

/// The coverage engine of one fuzzing process.
pub struct Fuzzer {
    nodes: Vec<Node>,
    sancov_index_map: HashMap<u32, u64>,
    sancov_edge_dict: HashMap<u32, HashMap<u32, Vec<usize>>>,
}

/// Mathematical value of a [`Fuzzer`]: the bit-counter of every node, the
/// sancov indices that the engine knows, the node of each of them, and the
/// table of sancov edges, from a pair of sancov indices, the lower one
/// first, to the node indices on the paths between the two.
pub struct FuzzerView {
    pub bit_counters: Seq<u8>,
    pub known: Set<u32>,
    pub node_of: Map<u32, u64>,
    pub edges: Map<(u32, u32), Seq<usize>>,
}

/// The bit-counters of the nodes, in node order.
pub open spec fn counters_of(nodes: Seq<Node>) -> Seq<u8> {
    nodes.map_values(|n: Node| n.bit_counter)
}

/// Every path of the table holds indices below `n` only.
pub open spec fn table_in_range(table: Map<(u32, u32), Seq<usize>>, n: nat) -> bool {
    forall|key: (u32, u32)| #[trigger] table.contains_key(key) ==> path_in_range(table[key], n)
}

impl View for Fuzzer {
    type V = FuzzerView;

    closed spec fn view(&self) -> FuzzerView {
        FuzzerView {
            bit_counters: counters_of(self.nodes@),
            known: self.sancov_index_map@.dom(),
            node_of: self.sancov_index_map@,
            edges: table_of(self.sancov_edge_dict@),
        }
    }
}

/// The sancov index of every instrumented block, by the block's
/// identifier. Where two blocks share an identifier the later one counts.
pub open spec fn sancov_by_node(blocks: Seq<BlockView>) -> Map<u64, u32>
    decreases blocks.len(),
{
    if blocks.len() == 0 {
        Map::empty()
    } else if blocks.last().instrumented() {
        sancov_by_node(blocks.drop_last()).insert(blocks.last().id, blocks.last().sancov_index)
    } else {
        sancov_by_node(blocks.drop_last())
    }
}

/// What a batch of features covers: each known sancov index that a feature
/// of the batch reports, with the bits that the batch reports for it.
pub open spec fn batch_of(known: Set<u32>, features: Seq<u32>) -> Map<u32, u8> {
    Map::new(|s: u32| known.contains(s) && reported(features, s), |s: u32| batch_bits(features, s))
}

/// The batch reaches node `n` from the sancov index `a`: the table holds a
/// path under `a` and some `b` that passes `n`, and the batch covers both.
pub open spec fn touched_from(edges: Map<(u32, u32), Seq<usize>>, batch: Map<u32, u8>, a: u32, n: usize) -> bool {
    exists|b: u32| #[trigger]
        edges.contains_key((a, b)) && batch.contains_key(a) && batch.contains_key(b) && edges[(a, b)].contains(n)
}

/// The batch reaches node `n`.
pub open spec fn touched(edges: Map<(u32, u32), Seq<usize>>, batch: Map<u32, u8>, n: usize) -> bool {
    exists|a: u32| #[trigger] touched_from(edges, batch, a, n)
}

/// The batch credits bit `k` to node `n`: it reaches `n` from a sancov index
/// for which it reports bit `k`.
pub open spec fn credited(edges: Map<(u32, u32), Seq<usize>>, batch: Map<u32, u8>, n: usize, k: u8) -> bool {
    exists|a: u32| #[trigger] touched_from(edges, batch, a, n) && bit_set(batch[a], k)
}

/// The engine `post` is the engine `pre` after the batch `features`: a bit
/// of a node is set just if it was set before or the batch credits it to the
/// node; the known sancov indices, their nodes and the table are the same.
pub open spec fn propagated(pre: FuzzerView, features: Seq<u32>, post: FuzzerView) -> bool {
    let batch = batch_of(pre.known, features);
    &&& post.known == pre.known
    &&& post.node_of == pre.node_of
    &&& post.edges == pre.edges
    &&& post.bit_counters.len() == pre.bit_counters.len()
    &&& forall|n: int, k: u8|
        0 <= n < pre.bit_counters.len() && k < 8 ==> (#[trigger] bit_set(post.bit_counters[n], k) <==> bit_set(
            pre.bit_counters[n],
            k,
        ) || credited(pre.edges, batch, n as usize, k))
}

/// The list `deltas` reports the batch `features` on the engine `post`: it
/// holds one pair for each node that the batch reaches, with the node's
/// index and its bit-counter after the batch, and no other pair.
pub open spec fn reports(post: FuzzerView, features: Seq<u32>, deltas: Seq<(usize, u8)>) -> bool {
    let batch = batch_of(post.known, features);
    &&& forall|i: int, j: int| 0 <= i < j < deltas.len() ==> (#[trigger] deltas[i]).0 != (#[trigger] deltas[j]).0
    &&& forall|i: int|
        0 <= i < deltas.len() ==> {
            &&& touched(post.edges, batch, (#[trigger] deltas[i]).0)
            &&& deltas[i].0 < post.bit_counters.len()
            &&& deltas[i].1 == post.bit_counters[deltas[i].0 as int]
        }
    &&& forall|n: usize| #[trigger]
        touched(post.edges, batch, n) ==> exists|i: int| 0 <= i < deltas.len() && (#[trigger] deltas[i]).0 == n
}

/// The bit-counters after `bits` is joined into those of the nodes in `hit`.
pub open spec fn credit(counters: Seq<u8>, hit: Set<usize>, bits: u8) -> Seq<u8> {
    Seq::new(
        counters.len(),
        |i: int|
            if hit.contains(i as usize) {
                counters[i] | bits
            } else {
                counters[i]
            },
    )
}

/// The recorded bit-counters are those that the nodes have.
pub open spec fn hits_current(hits: Map<usize, u8>, counters: Seq<u8>) -> bool {
    forall|n: usize| #[trigger] hits.contains_key(n) ==> n < counters.len() && hits[n] == counters[n as int]
}

/// The nodes on the paths of `inner` whose sancov index the batch covers.
pub open spec fn reached(inner: Map<u32, Vec<usize>>, covered: Set<u32>) -> Set<usize> {
    Set::new(|n: usize| exists|b: u32| #[trigger] inner.contains_key(b) && covered.contains(b) && inner[b]@.contains(n))
}

/// Joins `bits` into the bit-counter of every node on `path` and records the
/// new bit-counters.
fn apply_path(nodes: &mut Vec<Node>, hits: &mut HashMap<usize, u8>, path: &Vec<usize>, bits: u8)
    requires
        path_in_range(path@, old(nodes)@.len()),
        hits_current(old(hits)@, counters_of(old(nodes)@)),
    ensures
        final(nodes)@.len() == old(nodes)@.len(),
        counters_of(final(nodes)@) == credit(counters_of(old(nodes)@), path@.to_set(), bits),
        final(hits)@.dom() == old(hits)@.dom().union(path@.to_set()),
        hits_current(final(hits)@, counters_of(final(nodes)@)),
{
    let ghost c0 = counters_of(nodes@);
    let ghost h0 = hits@;
    let mut i: usize = 0;
    proof {
        assert(path@.take(0) =~= Seq::<usize>::empty());
        assert(path@.take(0).to_set() =~= Set::<usize>::empty());
        assert(counters_of(nodes@) =~= credit(c0, path@.take(0).to_set(), bits));
        assert(hits@.dom() =~= h0.dom().union(path@.take(0).to_set()));
    }
    while i < path.len()
        invariant
            i <= path.len(),
            nodes@.len() == c0.len(),
            path_in_range(path@, c0.len()),
            counters_of(nodes@) == credit(c0, path@.take(i as int).to_set(), bits),
            hits@.dom() == h0.dom().union(path@.take(i as int).to_set()),
            hits_current(hits@, counters_of(nodes@)),
        decreases path.len() - i,
    {
        let node_index: usize = path[i];
        let ghost before = counters_of(nodes@);
        let ghost hits_before = hits@;
        let updated: u8 = nodes[node_index].bit_counter | bits;
        nodes[node_index].bit_counter = updated;
        hits.insert(node_index, updated);
        proof {
            let done = path@.take(i as int);
            let next = path@.take(i + 1);
            assert(next =~= done.push(node_index));
            done.lemma_push_to_set_commute(node_index);
            lemma_or_bits(c0[node_index as int], bits);
            assert(next.to_set() =~= done.to_set().insert(node_index));
            assert(nodes@.len() == nodes.len());
            assert(counters_of(nodes@) =~= credit(c0, next.to_set(), bits)) by {
                assert forall|x: int| 0 <= x < c0.len() implies counters_of(nodes@)[x] == credit(
                    c0,
                    next.to_set(),
                    bits,
                )[x] by {
                    assert(before[x] == credit(c0, done.to_set(), bits)[x]);
                    if x != node_index {
                        assert(counters_of(nodes@)[x] == before[x]);
                        assert(x as usize != node_index);
                        assert(next.to_set().contains(x as usize) <==> done.to_set().contains(x as usize));
                    } else {
                        assert(x as usize == node_index);
                        assert(next.to_set().contains(node_index));
                        assert(counters_of(nodes@)[x] == before[x] | bits);
                    }
                }
            }
            assert(hits@.dom() =~= h0.dom().union(next.to_set()));
            assert forall|n: usize| #[trigger] hits@.contains_key(n) implies n < counters_of(nodes@).len() && hits@[n]
                == counters_of(nodes@)[n as int] by {
                if n != node_index {
                    assert(hits_before.contains_key(n));
                    assert(counters_of(nodes@)[n as int] == before[n as int]);
                }
            }
        }
        i += 1;
    }
    proof {
        assert(path@.take(i as int) =~= path@);
    }
}

/// The nodes on the first `count` paths of `items` whose sancov index the
/// batch covers.
pub open spec fn reached_through(items: Seq<(&u32, &Vec<usize>)>, covered: Set<u32>, count: int) -> Set<usize> {
    Set::new(
        |n: usize|
            exists|j: int| 0 <= j < count && covered.contains(*(#[trigger] items[j]).0) && (*items[j].1)@.contains(n),
    )
}

/// Joins `bits` into the bit-counter of every node on a path of `inner`
/// whose sancov index the batch covers, and records the new bit-counters.
fn propagate_from(
    nodes: &mut Vec<Node>,
    hits: &mut HashMap<usize, u8>,
    inner: &HashMap<u32, Vec<usize>>,
    covered: &HashMap<u32, u8>,
    bits: u8,
)
    requires
        forall|b: u32| #[trigger] inner@.contains_key(b) ==> path_in_range(inner@[b]@, old(nodes)@.len()),
        hits_current(old(hits)@, counters_of(old(nodes)@)),
    ensures
        final(nodes)@.len() == old(nodes)@.len(),
        counters_of(final(nodes)@) == credit(counters_of(old(nodes)@), reached(inner@, covered@.dom()), bits),
        final(hits)@.dom() == old(hits)@.dom().union(reached(inner@, covered@.dom())),
        hits_current(final(hits)@, counters_of(final(nodes)@)),
{
    let ghost c0 = counters_of(nodes@);
    let ghost h0 = hits@;
    let ghost cov = covered@.dom();
    proof {
        let s0 = inner.iter().remaining();
        assert(reached_through(s0, cov, 0) =~= Set::<usize>::empty());
        assert(counters_of(nodes@) =~= credit(c0, Set::<usize>::empty(), bits));
        assert(hits@.dom() =~= h0.dom().union(Set::<usize>::empty()));
    }
    for (b, path) in it: inner.iter()
        invariant
            nodes@.len() == c0.len(),
            cov == covered@.dom(),
            forall|b: u32| #[trigger] inner@.contains_key(b) ==> path_in_range(inner@[b]@, c0.len()),
            forall|j: int|
                0 <= j < it.seq().len() ==> inner@.contains_key(*(#[trigger] it.seq()[j]).0) && inner@[*it.seq()[j].0]
                    == *it.seq()[j].1,
            forall|b: u32| #[trigger]
                inner@.contains_key(b) ==> exists|j: int|
                    0 <= j < it.seq().len() && *(#[trigger] it.seq()[j]).0 == b,
            counters_of(nodes@) == credit(c0, reached_through(it.seq(), cov, it.index()), bits),
            hits@.dom() == h0.dom().union(reached_through(it.seq(), cov, it.index())),
            hits_current(hits@, counters_of(nodes@)),
    {
        let ghost items = it.seq();
        let ghost at = it.index();
        let ghost before = counters_of(nodes@);
        let ghost done = reached_through(items, cov, at);
        let ghost next = reached_through(items, cov, at + 1);
        assert(items[at] == (b, path));
        if covered.contains_key(b) {
            apply_path(nodes, hits, path, bits);
            proof {
                assert(next =~= done.union(path@.to_set())) by {
                    assert forall|n: usize| next.contains(n) <==> done.union(path@.to_set()).contains(n) by {
                        if done.contains(n) {
                            let j = choose|j: int|
                                0 <= j < at && cov.contains(*(#[trigger] items[j]).0) && (*items[j].1)@.contains(n);
                            assert(0 <= j < at + 1);
                        }
                        if path@.contains(n) {
                            assert(cov.contains(*items[at].0) && (*items[at].1)@.contains(n));
                        }
                    }
                }
                assert(counters_of(nodes@) =~= credit(c0, next, bits)) by {
                    assert forall|x: int| 0 <= x < c0.len() implies counters_of(nodes@)[x] == credit(c0, next, bits)[x] by {
                        lemma_or_bits(c0[x], bits);
                        assert(before[x] == credit(c0, done, bits)[x]);
                        assert(counters_of(nodes@)[x] == credit(before, path@.to_set(), bits)[x]);
                    }
                }
                assert(hits@.dom() =~= h0.dom().union(next));
            }
        } else {
            proof {
                assert(next =~= done) by {
                    assert forall|n: usize| next.contains(n) <==> done.contains(n) by {
                        if next.contains(n) {
                            let j = choose|j: int|
                                0 <= j < at + 1 && cov.contains(*(#[trigger] items[j]).0) && (*items[j].1)@.contains(
                                    n,
                                );
                            assert(j != at);
                        }
                        if done.contains(n) {
                            let j = choose|j: int|
                                0 <= j < at && cov.contains(*(#[trigger] items[j]).0) && (*items[j].1)@.contains(n);
                            assert(0 <= j < at + 1);
                        }
                    }
                }
            }
        }
    }
    proof {
        let s = inner.iter().remaining();
        let all = reached_through(s, cov, s.len() as int);
        assert(all =~= reached(inner@, cov)) by {
            assert forall|n: usize| all.contains(n) <==> reached(inner@, cov).contains(n) by {
                if all.contains(n) {
                    let j = choose|j: int|
                        0 <= j < s.len() && cov.contains(*(#[trigger] s[j]).0) && (*s[j].1)@.contains(n);
                    assert(inner@.contains_key(*s[j].0));
                }
                if reached(inner@, cov).contains(n) {
                    let b = choose|b: u32| #[trigger] inner@.contains_key(b) && cov.contains(b) && inner@[b]@.contains(n);
                    let j = choose|j: int| 0 <= j < s.len() && *(#[trigger] s[j]).0 == b;
                    assert(inner@[*s[j].0] == *s[j].1);
                }
            }
        }
    }
}

impl Fuzzer {
    /// One step of the depth-first walk from an instrumented source: the walk
    /// has come along `path` and arrives at `node_index`. Where the walk ends
    /// there, the path with this node is recorded in the table, under the
    /// sancov indices of the source and of this node. Else the node is
    /// marked, the walk goes on through each successor in turn, and the mark
    /// is cleared. The path and the marks are left as they were found.
    pub fn path_traverse(
        graph_nodes: &Vec<GraphNode>,
        node_sancov_map: &HashMap<u64, u32>,
        node_index: usize,
        source_sancov_index: u32,
        path: &mut Vec<usize>,
        sancov_edge_dict: &mut HashMap<u32, HashMap<u32, Vec<usize>>>,
        visiting_map: &mut Vec<u32>,
    )
        requires
            lists_in_range(successor_lists_of(graph_nodes@)),
            node_index < graph_nodes@.len(),
            old(visiting_map)@.len() == graph_nodes@.len(),
            source_sancov_index != NO_SANCOV_INDEX,
            old(path)@.no_duplicates(),
            path_in_range(old(path)@, graph_nodes@.len()),
            marks_path(old(visiting_map)@, old(path)@, source_sancov_index),
            node_sancov_map@.contains_key(old(path)@.push(node_index).first() as u64),
            node_sancov_map@[old(path)@.push(node_index).first() as u64] == source_sancov_index,
        ensures
            final(path)@ == old(path)@,
            final(visiting_map)@ == old(visiting_map)@,
            table_of(final(sancov_edge_dict)@) == record_all(
                table_of(old(sancov_edge_dict)@),
                node_sancov_map@,
                walks(successor_lists_of(graph_nodes@), node_sancov_map@, old(path)@.push(node_index)),
            ),
        decreases graph_nodes@.len() - old(path)@.len(),
    {
        let ghost lists = successor_lists_of(graph_nodes@);
        let ghost sancov = node_sancov_map@;
        let ghost came = path@;
        let ghost full = path@.push(node_index);
        let ghost marks = visiting_map@;
        let ghost table = table_of(sancov_edge_dict@);
        proof {
            lemma_path_length(came, graph_nodes@.len());
            assert(full.drop_last() =~= came);
            assert(graph_nodes@.len() == graph_nodes.len());
        }
        path.push(node_index);
        let sancov_index: Option<u32> = match node_sancov_map.get(&(node_index as u64)) {
            Some(found) => Some(*found),
            None => None,
        };
        let successor_count: usize = graph_nodes[node_index].successors.len();
        proof {
            assert(lists[node_index as int] == graph_nodes@[node_index as int].successors@);
            assert(came.contains(node_index) <==> marks[node_index as int] == source_sancov_index);
        }
        if (path.len() > 1 && sancov_index.is_some()) || successor_count == 0 || visiting_map[node_index]
            == source_sancov_index {
            let target: u32 = match sancov_index {
                Some(found) => found,
                None => source_sancov_index,
            };
            let lo: u32 = if source_sancov_index <= target {
                source_sancov_index
            } else {
                target
            };
            let hi: u32 = if source_sancov_index <= target {
                target
            } else {
                source_sancov_index
            };
            proof {
                assert(walk_stops(lists, sancov, full));
                assert(edge_key(sancov, full) == (lo, hi));
                let recorded = seq![full];
                assert(recorded.drop_last() =~= Seq::<Seq<usize>>::empty());
                assert(recorded.last() == full);
                assert(record_all(table, sancov, recorded.drop_last()) == table);
                assert(record_all(table, sancov, recorded) == record(table, (lo, hi), full));
            }
            record_path(sancov_edge_dict, lo, hi, path);
        } else {
            proof {
                assert(!walk_stops(lists, sancov, full));
                lemma_push_no_duplicates(full);
                lemma_path_length(full, graph_nodes@.len());
            }
            visiting_map[node_index] = source_sancov_index;
            let ghost marked = visiting_map@;
            let mut k: usize = 0;
            proof {
                assert(marks_path(marked, full, source_sancov_index)) by {
                    assert forall|x: int| 0 <= x < marked.len() implies #[trigger] marked[x] == if full.contains(
                        x as usize,
                    ) {
                        source_sancov_index
                    } else {
                        NO_SANCOV_INDEX
                    } by {
                        if x == node_index {
                            assert(full[came.len() as int] == node_index);
                        } else {
                            assert(marked[x] == marks[x]);
                            if came.contains(x as usize) {
                                let i = choose|i: int| 0 <= i < came.len() && came[i] == x as usize;
                                assert(full[i] == x as usize);
                            }
                            if full.contains(x as usize) {
                                let i = choose|i: int| 0 <= i < full.len() && full[i] == x as usize;
                                assert(came[i] == x as usize);
                            }
                        }
                    }
                }
                assert(path_in_range(full, graph_nodes@.len())) by {
                    assert forall|i: int| 0 <= i < full.len() implies #[trigger] full[i] < graph_nodes@.len() by {
                        if i < came.len() {
                            assert(full[i] == came[i]);
                        }
                    }
                }
                assert(record_all(table, sancov, walks_through(lists, sancov, full, 0)) == table);
            }
            while k < successor_count
                invariant
                    k <= successor_count,
                    node_index < graph_nodes@.len(),
                    successor_count == lists[node_index as int].len(),
                    lists == successor_lists_of(graph_nodes@),
                    lists_in_range(lists),
                    sancov == node_sancov_map@,
                    source_sancov_index != NO_SANCOV_INDEX,
                    came == old(path)@,
                    full == came.push(node_index),
                    full.len() <= graph_nodes@.len(),
                    graph_nodes@.len() <= usize::MAX,
                    path@ == full,
                    full.no_duplicates(),
                    path_in_range(full, graph_nodes@.len()),
                    visiting_map@ == marked,
                    marked.len() == graph_nodes@.len(),
                    marks_path(marked, full, source_sancov_index),
                    sancov.contains_key(full.first() as u64),
                    sancov[full.first() as u64] == source_sancov_index,
                    table_of(sancov_edge_dict@) == record_all(
                        table,
                        sancov,
                        walks_through(lists, sancov, full, k as nat),
                    ),
                decreases successor_count - k,
            {
                let successor: u64 = graph_nodes[node_index].successors[k];
                proof {
                    assert(successor == lists[node_index as int][k as int]);
                    assert(successor < lists.len());
                    assert(full.push(successor as usize).first() == full[0]);
                    lemma_record_all_concat(
                        table,
                        sancov,
                        walks_through(lists, sancov, full, k as nat),
                        walks(lists, sancov, full.push(successor as usize)),
                    );
                }
                Self::path_traverse(
                    graph_nodes,
                    node_sancov_map,
                    successor as usize,
                    source_sancov_index,
                    path,
                    sancov_edge_dict,
                    visiting_map,
                );
                k += 1;
            }
            visiting_map[node_index] = NO_SANCOV_INDEX;
            proof {
                assert(visiting_map@ =~= marks);
            }
        }
        path.pop();
        proof {
            assert(path@ =~= came);
        }
    }

    /// Fills the table of sancov edges of a graph: from every instrumented
    /// node in index order a depth-first walk records the paths to the
    /// instrumented nodes it reaches without passing another one, and the
    /// paths on which it ends at a dead end or meets itself.
    pub fn build_sancov_edge_dict(graph_nodes: &Vec<GraphNode>, node_sancov_map: &HashMap<u64, u32>) -> (dict:
        HashMap<u32, HashMap<u32, Vec<usize>>>)
        requires
            lists_in_range(successor_lists_of(graph_nodes@)),
            sancov_proper(node_sancov_map@),
        ensures
            table_of(dict@) == edge_table(successor_lists_of(graph_nodes@), node_sancov_map@),
    {
        let ghost lists = successor_lists_of(graph_nodes@);
        let ghost sancov = node_sancov_map@;
        let mut sancov_edge_dict: HashMap<u32, HashMap<u32, Vec<usize>>> = HashMap::new();
        let mut visiting_map: Vec<u32> = Vec::new();
        let count: usize = graph_nodes.len();
        let mut i: usize = 0;
        while i < count
            invariant
                i <= count,
                visiting_map@.len() == i,
                forall|x: int| 0 <= x < i ==> visiting_map@[x] == NO_SANCOV_INDEX,
            decreases count - i,
        {
            visiting_map.push(NO_SANCOV_INDEX);
            i += 1;
        }
        let mut path: Vec<usize> = Vec::new();
        let mut node_index: usize = 0;
        proof {
            assert(table_of(sancov_edge_dict@) =~= Map::<(u32, u32), Seq<usize>>::empty());
        }
        while node_index < count
            invariant
                node_index <= count,
                count == graph_nodes@.len(),
                lists == successor_lists_of(graph_nodes@),
                lists_in_range(lists),
                sancov == node_sancov_map@,
                sancov_proper(sancov),
                path@.len() == 0,
                visiting_map@.len() == count,
                forall|x: int| 0 <= x < count ==> visiting_map@[x] == NO_SANCOV_INDEX,
                table_of(sancov_edge_dict@) == record_all(
                    Map::empty(),
                    sancov,
                    walks_of_sources(lists, sancov, node_index as nat),
                ),
            decreases count - node_index,
        {
            let source: Option<u32> = match node_sancov_map.get(&(node_index as u64)) {
                Some(found) => Some(*found),
                None => None,
            };
            match source {
                Some(source_sancov_index) => {
                    proof {
                        assert(path@.push(node_index) =~= seq![node_index]);
                        assert(seq![node_index].first() == node_index);
                        lemma_record_all_concat(
                            Map::empty(),
                            sancov,
                            walks_of_sources(lists, sancov, node_index as nat),
                            walks(lists, sancov, seq![node_index]),
                        );
                    }
                    Self::path_traverse(
                        graph_nodes,
                        node_sancov_map,
                        node_index,
                        source_sancov_index,
                        &mut path,
                        &mut sancov_edge_dict,
                        &mut visiting_map,
                    );
                },
                None => {
                    proof {
                        assert(walks_of_sources(lists, sancov, (node_index + 1) as nat) =~= walks_of_sources(
                            lists,
                            sancov,
                            node_index as nat,
                        ));
                    }
                },
            }
            node_index += 1;
        }
        sancov_edge_dict
    }
}

/// The sancov indices reported by the first `count` features that the engine
/// knows, each with the bits reported for it.
pub open spec fn batch_upto(known: Set<u32>, features: Seq<u32>, count: int) -> Map<u32, u8> {
    batch_of(known, features.take(count))
}

/// The batch reaches node `n` from one of the first `count` sancov indices
/// of `items`.
pub open spec fn touched_upto(
    edges: Map<(u32, u32), Seq<usize>>,
    batch: Map<u32, u8>,
    items: Seq<(&u32, &u8)>,
    count: int,
    n: usize,
) -> bool {
    exists|j: int| 0 <= j < count && touched_from(edges, batch, *(#[trigger] items[j]).0, n)
}

/// The batch credits bit `k` to node `n` from one of the first `count`
/// sancov indices of `items`.
pub open spec fn credited_upto(
    edges: Map<(u32, u32), Seq<usize>>,
    batch: Map<u32, u8>,
    items: Seq<(&u32, &u8)>,
    count: int,
    n: usize,
    k: u8,
) -> bool {
    exists|j: int|
        0 <= j < count && touched_from(edges, batch, *(#[trigger] items[j]).0, n) && bit_set(batch[*items[j].0], k)
}

impl Fuzzer {
    /// The engine is well formed: every path of its table holds indices of
    /// its nodes only.
    pub open spec fn wf(&self) -> bool {
        table_in_range(self@.edges, self@.bit_counters.len())
    }

    /// Makes the engine of one fuzzing process from the structure graph and
    /// the control-flow graph of its program. Every bit-counter starts at
    /// zero. The engine knows the sancov index of every instrumented block,
    /// and its table of sancov edges is the one that the walks from the
    /// instrumented nodes record. The node of a sancov index is a block that
    /// carries the index; where several do, it is one of them.
    pub fn new(struct_graph: &StructureGraph, cfg: ControlFlowGraph) -> (fuzzer: Fuzzer)
        requires
            lists_in_range(struct_graph@.successor_lists()),
        ensures
            fuzzer.wf(),
            fuzzer@.bit_counters == Seq::new(struct_graph@.nodes.len(), |i: int| 0u8),
            fuzzer@.known == sancov_by_node(cfg@.blocks()).values(),
            fuzzer@.node_of.dom() == fuzzer@.known,
            forall|s: u32| #[trigger]
                fuzzer@.node_of.contains_key(s) ==> sancov_by_node(cfg@.blocks()).contains_key(fuzzer@.node_of[s])
                    && sancov_by_node(cfg@.blocks())[fuzzer@.node_of[s]] == s,
            fuzzer@.edges == edge_table(struct_graph@.successor_lists(), sancov_by_node(cfg@.blocks())),
    {
        let ghost fs = cfg@.functions;
        let ghost lists = struct_graph@.successor_lists();
        let mut node_sancov_map: HashMap<u64, u32> = HashMap::new();
        let mut i: usize = 0;
        proof {
            assert(fs.take(0) =~= Seq::<FunctionView>::empty());
            assert(successor_lists_of(struct_graph.nodes@) =~= lists);
        }
        while i < cfg.functions.len()
            invariant
                i <= cfg.functions.len(),
                fs == cfg@.functions,
                node_sancov_map@ == sancov_by_node(blocks_of(fs.take(i as int))),
                sancov_proper(node_sancov_map@),
            decreases cfg.functions.len() - i,
        {
            let function = &cfg.functions[i];
            let ghost f = fs[i as int];
            let ghost done = blocks_of(fs.take(i as int));
            let mut j: usize = 0;
            proof {
                assert(function@ == f);
                assert(fs.take(i + 1).drop_last() =~= fs.take(i as int));
                assert(done + f.blocks.take(0) =~= done);
            }
            while j < function.basic_blocks.len()
                invariant
                    j <= function.basic_blocks.len(),
                    f == function@,
                    node_sancov_map@ == sancov_by_node(done + f.blocks.take(j as int)),
                    sancov_proper(node_sancov_map@),
                decreases function.basic_blocks.len() - j,
            {
                let block = &function.basic_blocks[j];
                proof {
                    assert(block@ == f.blocks[j as int]);
                    let next = done + f.blocks.take(j + 1);
                    assert(next.drop_last() =~= done + f.blocks.take(j as int));
                    assert(next.last() == f.blocks[j as int]);
                }
                if block.sancov_index != NO_SANCOV_INDEX {
                    node_sancov_map.insert(block.id, block.sancov_index);
                }
                j += 1;
            }
            proof {
                assert(f.blocks.take(j as int) =~= f.blocks);
            }
            i += 1;
        }
        proof {
            assert(fs.take(i as int) =~= fs);
        }
        let ghost sancov = node_sancov_map@;
        let mut sancov_index_map: HashMap<u32, u64> = HashMap::new();
        for (node_index, sancov_index) in it: node_sancov_map.iter()
            invariant
                sancov == node_sancov_map@,
                forall|j: int|
                    0 <= j < it.seq().len() ==> sancov.contains_key(*(#[trigger] it.seq()[j]).0) && sancov[*it.seq()[j].0]
                        == *it.seq()[j].1,
                forall|k: u64| #[trigger]
                    sancov.contains_key(k) ==> exists|j: int|
                        0 <= j < it.seq().len() && *(#[trigger] it.seq()[j]).0 == k,
                forall|s: u32|
                    sancov_index_map@.contains_key(s) <==> exists|j: int|
                        0 <= j < it.index() && *(#[trigger] it.seq()[j]).1 == s,
                forall|s: u32| #[trigger]
                    sancov_index_map@.contains_key(s) ==> sancov.contains_key(sancov_index_map@[s])
                        && sancov[sancov_index_map@[s]] == s,
        {
            let ghost at = it.index();
            let ghost items = it.seq();
            let ghost before = sancov_index_map@;
            assert(items[at] == (node_index, sancov_index));
            sancov_index_map.insert(*sancov_index, *node_index);
            proof {
                assert forall|s: u32| sancov_index_map@.contains_key(s) <==> exists|j: int|
                    0 <= j < at + 1 && *(#[trigger] items[j]).1 == s by {
                    if before.contains_key(s) {
                        let j = choose|j: int| 0 <= j < at && *(#[trigger] items[j]).1 == s;
                        assert(0 <= j < at + 1);
                    }
                    if exists|j: int| 0 <= j < at + 1 && *(#[trigger] items[j]).1 == s {
                        let j = choose|j: int| 0 <= j < at + 1 && *(#[trigger] items[j]).1 == s;
                        if j < at {
                            assert(before.contains_key(s));
                        }
                    }
                }
            }
        }
        proof {
            let items = node_sancov_map.iter().remaining();
            assert(sancov_index_map@.dom() =~= sancov.values()) by {
                assert forall|s: u32| sancov_index_map@.dom().contains(s) <==> sancov.values().contains(s) by {
                    if sancov_index_map@.contains_key(s) {
                        let j = choose|j: int| 0 <= j < items.len() && *(#[trigger] items[j]).1 == s;
                        assert(sancov.contains_key(*items[j].0));
                    }
                    if sancov.values().contains(s) {
                        let k = choose|k: u64| #[trigger] sancov.contains_key(k) && sancov[k] == s;
                        let j = choose|j: int| 0 <= j < items.len() && *(#[trigger] items[j]).0 == k;
                        assert(*items[j].1 == s);
                    }
                }
            }
        }
        let mut nodes: Vec<Node> = Vec::new();
        let count: usize = struct_graph.nodes.len();
        let mut n: usize = 0;
        while n < count
            invariant
                n <= count,
                nodes@.len() == n,
                forall|x: int| 0 <= x < n ==> (#[trigger] nodes@[x]).bit_counter == 0,
            decreases count - n,
        {
            nodes.push(Node { bit_counter: 0 });
            n += 1;
        }
        let sancov_edge_dict = Self::build_sancov_edge_dict(&struct_graph.nodes, &node_sancov_map);
        proof {
            lemma_edge_table_sound(lists, sancov);
            assert(counters_of(nodes@) =~= Seq::new(struct_graph@.nodes.len(), |i: int| 0u8));
            assert(table_in_range(table_of(sancov_edge_dict@), nodes@.len())) by {
                assert(table_sound(lists.len(), sancov, table_of(sancov_edge_dict@)));
            }
        }
        Fuzzer { nodes, sancov_index_map, sancov_edge_dict }
    }

    /// The number of nodes of the engine.
    pub fn node_count(&self) -> (count: usize)
        ensures
            count == self@.bit_counters.len(),
    {
        self.nodes.len()
    }

    /// The bit-counter of a node.
    pub fn bit_counter(&self, node_index: usize) -> (counter: u8)
        requires
            node_index < self@.bit_counters.len(),
        ensures
            counter == self@.bit_counters[node_index as int],
    {
        self.nodes[node_index].bit_counter
    }

    /// The node of a sancov index, if the engine knows the index.
    pub fn node_of(&self, sancov_index: u32) -> (node: Option<u64>)
        ensures
            node is Some <==> self@.node_of.contains_key(sancov_index),
            node is Some ==> node.unwrap() == self@.node_of[sancov_index],
    {
        match self.sancov_index_map.get(&sancov_index) {
            Some(found) => Some(*found),
            None => None,
        }
    }

    /// Whether the engine knows a sancov index.
    pub fn knows(&self, sancov_index: u32) -> (known: bool)
        ensures
            known == self@.known.contains(sancov_index),
    {
        self.sancov_index_map.contains_key(&sancov_index)
    }

    /// The path that the table holds under the sancov indices `lo` and `hi`,
    /// if it holds one.
    pub fn edge_path(&self, lo: u32, hi: u32) -> (path: Option<Vec<usize>>)
        ensures
            path is Some <==> self@.edges.contains_key((lo, hi)),
            path is Some ==> path.unwrap()@ == self@.edges[(lo, hi)],
    {
        match self.sancov_edge_dict.get(&lo) {
            Some(edges_from) => match edges_from.get(&hi) {
                Some(found) => {
                    let path: Vec<usize> = found.clone();
                    assert(path@ =~= found@);
                    Some(path)
                },
                None => None,
            },
            None => None,
        }
    }

    /// Takes one batch of raw coverage features. A feature reports the sancov
    /// index that is its eighth part and the bit that is its remainder;
    /// features of unknown sancov indices count for nothing. For each path of
    /// the table whose two sancov indices the batch covers, the bits reported
    /// for the lower one are joined into the bit-counter of every node on the
    /// path. The result holds, once for each node on such a path, the node's
    /// index and its new bit-counter.
    pub fn update_features(&mut self, features: &[u32]) -> (deltas: Vec<(usize, u8)>)
        requires
            old(self).wf(),
        ensures
            final(self).wf(),
            propagated(old(self)@, features@, final(self)@),
            reports(final(self)@, features@, deltas@),
    {
        let ghost known = self.sancov_index_map@.dom();
        let ghost node_of = self.sancov_index_map@;
        let ghost edges = table_of(self.sancov_edge_dict@);
        let ghost c0 = counters_of(self.nodes@);
        let mut covered_sancov_indices: HashMap<u32, u8> = HashMap::new();
        let mut i: usize = 0;
        proof {
            assert(covered_sancov_indices@ =~= batch_upto(known, features@, 0)) by {
                assert forall|s: u32| !batch_upto(known, features@, 0).contains_key(s) by {
                    if reported(features@.take(0), s) {
                        let j = choose|j: int|
                            0 <= j < features@.take(0).len() && feature_index(#[trigger] features@.take(0)[j]) == s;
                    }
                }
            }
        }
        while i < features.len()
            invariant
                i <= features.len(),
                known == self.sancov_index_map@.dom(),
                node_of == self.sancov_index_map@,
                covered_sancov_indices@ == batch_upto(known, features@, i as int),
            decreases features.len() - i,
        {
            let feature: u32 = features[i];
            let sancov_index: u32 = feature / 8;
            let ghost before = covered_sancov_indices@;
            if self.sancov_index_map.contains_key(&sancov_index) {
                let bit: u8 = 1u8 << ((feature % 8) as u8);
                let bit_counter: u8 = match covered_sancov_indices.get(&sancov_index) {
                    Some(found) => *found,
                    None => 0,
                };
                covered_sancov_indices.insert(sancov_index, bit_counter | bit);
            }
            proof {
                let done = features@.take(i as int);
                let next = features@.take(i + 1);
                assert(next.drop_last() =~= done);
                assert(next.last() == feature);
                assert forall|s: u32| reported(next, s) <==> (reported(done, s) || feature_index(feature) == s) by {
                    if reported(done, s) {
                        let j = choose|j: int| 0 <= j < done.len() && feature_index(#[trigger] done[j]) == s;
                        assert(feature_index(next[j]) == s);
                    }
                    if feature_index(feature) == s {
                        assert(feature_index(next[i as int]) == s);
                    }
                    if reported(next, s) {
                        let j = choose|j: int| 0 <= j < next.len() && feature_index(#[trigger] next[j]) == s;
                        if j < i {
                            assert(feature_index(done[j]) == s);
                        }
                    }
                }
                if !reported(done, sancov_index) {
                    lemma_batch_bits_unreported(done, sancov_index);
                }
                lemma_or_bits(0, feature_bit(feature));
                assert(covered_sancov_indices@ =~= batch_upto(known, features@, i + 1));
            }
            i += 1;
        }
        proof {
            assert(features@.take(i as int) =~= features@);
        }
        let ghost batch = covered_sancov_indices@;
        let mut hit_bit_counters: HashMap<usize, u8> = HashMap::new();
        for (sancov_index, bit_counter) in it: covered_sancov_indices.iter()
            invariant
                batch == covered_sancov_indices@,
                edges == table_of(self.sancov_edge_dict@),
                known == self.sancov_index_map@.dom(),
                node_of == self.sancov_index_map@,
                self.nodes@.len() == c0.len(),
                table_in_range(edges, c0.len()),
                it.seq().no_duplicates(),
                forall|j: int|
                    0 <= j < it.seq().len() ==> batch.contains_key(*(#[trigger] it.seq()[j]).0) && batch[*it.seq()[j].0]
                        == *it.seq()[j].1,
                forall|a: u32| #[trigger]
                    batch.contains_key(a) ==> exists|j: int| 0 <= j < it.seq().len() && *(#[trigger] it.seq()[j]).0 == a,
                forall|n: int, k: u8|
                    0 <= n < c0.len() && k < 8 ==> (#[trigger] bit_set(counters_of(self.nodes@)[n], k) <==> bit_set(
                        c0[n],
                        k,
                    ) || credited_upto(edges, batch, it.seq(), it.index(), n as usize, k)),
                forall|n: usize| #[trigger]
                    hit_bit_counters@.contains_key(n) <==> touched_upto(edges, batch, it.seq(), it.index(), n),
                hits_current(hit_bit_counters@, counters_of(self.nodes@)),
        {
            let ghost items = it.seq();
            let ghost at = it.index();
            let ghost before = counters_of(self.nodes@);
            let ghost hits_before = hit_bit_counters@;
            let ghost a = *sancov_index;
            assert(items[at] == (sancov_index, bit_counter));
            match self.sancov_edge_dict.get(sancov_index) {
                Some(edges_from) => {
                    proof {
                        assert forall|b: u32| #[trigger] edges_from@.contains_key(b) implies path_in_range(
                            edges_from@[b]@,
                            c0.len(),
                        ) by {
                            assert(edges.contains_key((a, b)));
                        }
                    }
                    propagate_from(
                        &mut self.nodes,
                        &mut hit_bit_counters,
                        edges_from,
                        &covered_sancov_indices,
                        *bit_counter,
                    );
                    proof {
                        let hit = reached(edges_from@, batch.dom());
                        assert forall|n: usize| hit.contains(n) <==> touched_from(edges, batch, a, n) by {
                            if hit.contains(n) {
                                let b = choose|b: u32| #[trigger]
                                    edges_from@.contains_key(b) && batch.dom().contains(b) && edges_from@[b]@.contains(n);
                                assert(edges.contains_key((a, b)));
                            }
                            if touched_from(edges, batch, a, n) {
                                let b = choose|b: u32| #[trigger]
                                    edges.contains_key((a, b)) && batch.contains_key(a) && batch.contains_key(b)
                                        && edges[(a, b)].contains(n);
                                assert(edges_from@.contains_key(b));
                            }
                        }
                    }
                },
                None => {
                    proof {
                        assert forall|n: usize| !touched_from(edges, batch, a, n) by {
                            if touched_from(edges, batch, a, n) {
                                let b = choose|b: u32| #[trigger]
                                    edges.contains_key((a, b)) && batch.contains_key(a) && batch.contains_key(b)
                                        && edges[(a, b)].contains(n);
                            }
                        }
                    }
                },
            }
            proof {
                let now = counters_of(self.nodes@);
                assert forall|n: int| 0 <= n < c0.len() implies now[n] == if touched_from(edges, batch, a, n as usize) {
                    before[n] | *bit_counter
                } else {
                    before[n]
                } by {}
                assert forall|n: int, k: u8| 0 <= n < c0.len() && k < 8 implies (#[trigger] bit_set(now[n], k) <==> bit_set(
                    c0[n],
                    k,
                ) || credited_upto(edges, batch, items, at + 1, n as usize, k)) by {
                    lemma_or_bits(before[n], *bit_counter);
                    assert(bit_set(before[n], k) <==> bit_set(c0[n], k) || credited_upto(
                        edges,
                        batch,
                        items,
                        at,
                        n as usize,
                        k,
                    ));
                    if credited_upto(edges, batch, items, at, n as usize, k) {
                        let j = choose|j: int|
                            0 <= j < at && touched_from(edges, batch, *(#[trigger] items[j]).0, n as usize) && bit_set(
                                batch[*items[j].0],
                                k,
                            );
                        assert(0 <= j < at + 1);
                    }
                    if credited_upto(edges, batch, items, at + 1, n as usize, k) {
                        let j = choose|j: int|
                            0 <= j < at + 1 && touched_from(edges, batch, *(#[trigger] items[j]).0, n as usize)
                                && bit_set(batch[*items[j].0], k);
                        if j < at {
                            assert(credited_upto(edges, batch, items, at, n as usize, k));
                        }
                    }
                    if touched_from(edges, batch, a, n as usize) && bit_set(*bit_counter, k) {
                        assert(touched_from(edges, batch, *items[at].0, n as usize) && bit_set(batch[*items[at].0], k));
                    }
                }
                assert forall|n: usize| #[trigger]
                    hit_bit_counters@.contains_key(n) <==> touched_upto(edges, batch, items, at + 1, n) by {
                    assert(hits_before.contains_key(n) <==> touched_upto(edges, batch, items, at, n));
                    if touched_upto(edges, batch, items, at, n) {
                        let j = choose|j: int| 0 <= j < at && touched_from(edges, batch, *(#[trigger] items[j]).0, n);
                        assert(0 <= j < at + 1);
                    }
                    if touched_upto(edges, batch, items, at + 1, n) {
                        let j = choose|j: int|
                            0 <= j < at + 1 && touched_from(edges, batch, *(#[trigger] items[j]).0, n);
                        if j < at {
                            assert(touched_upto(edges, batch, items, at, n));
                        }
                    }
                    if touched_from(edges, batch, a, n) {
                        assert(touched_from(edges, batch, *items[at].0, n));
                    }
                }
            }
        }
        proof {
            let items = covered_sancov_indices.iter().remaining();
            assert forall|n: usize, k: u8| #[trigger]
                credited_upto(edges, batch, items, items.len() as int, n, k) <==> credited(edges, batch, n, k) by {
                if credited_upto(edges, batch, items, items.len() as int, n, k) {
                    let j = choose|j: int|
                        0 <= j < items.len() && touched_from(edges, batch, *(#[trigger] items[j]).0, n) && bit_set(
                            batch[*items[j].0],
                            k,
                        );
                    assert(touched_from(edges, batch, *items[j].0, n) && bit_set(batch[*items[j].0], k));
                }
                if credited(edges, batch, n, k) {
                    let a = choose|a: u32| #[trigger] touched_from(edges, batch, a, n) && bit_set(batch[a], k);
                    lemma_touched_from_covered(edges, batch, a, n);
                    let j = choose|j: int| 0 <= j < items.len() && *(#[trigger] items[j]).0 == a;
                    assert(touched_from(edges, batch, *items[j].0, n) && bit_set(batch[*items[j].0], k));
                }
            }
            assert forall|n: usize| #[trigger]
                touched_upto(edges, batch, items, items.len() as int, n) <==> touched(edges, batch, n) by {
                if touched_upto(edges, batch, items, items.len() as int, n) {
                    let j = choose|j: int| 0 <= j < items.len() && touched_from(edges, batch, *(#[trigger] items[j]).0, n);
                    assert(touched_from(edges, batch, *items[j].0, n));
                }
                if touched(edges, batch, n) {
                    let a = choose|a: u32| #[trigger] touched_from(edges, batch, a, n);
                    lemma_touched_from_covered(edges, batch, a, n);
                    let j = choose|j: int| 0 <= j < items.len() && *(#[trigger] items[j]).0 == a;
                    assert(touched_from(edges, batch, *items[j].0, n));
                }
            }
        }
        let ghost hits = hit_bit_counters@;
        let mut deltas: Vec<(usize, u8)> = Vec::new();
        for (node_index, bit_counter) in it: hit_bit_counters.iter()
            invariant
                hits == hit_bit_counters@,
                it.seq().no_duplicates(),
                forall|j: int|
                    0 <= j < it.seq().len() ==> hits.contains_key(*(#[trigger] it.seq()[j]).0) && hits[*it.seq()[j].0]
                        == *it.seq()[j].1,
                forall|n: usize| #[trigger]
                    hits.contains_key(n) ==> exists|j: int| 0 <= j < it.seq().len() && *(#[trigger] it.seq()[j]).0 == n,
                deltas@.len() == it.index(),
                forall|j: int|
                    0 <= j < it.index() ==> (#[trigger] deltas@[j]).0 == *it.seq()[j].0 && deltas@[j].1 == *it.seq()[j].1,
        {
            assert(it.seq()[it.index()] == (node_index, bit_counter));
            deltas.push((*node_index, *bit_counter));
        }
        proof {
            let items = hit_bit_counters.iter().remaining();
            let post = self@;
            assert(post.edges == edges);
            assert(post.known == known);
            assert forall|i: int, j: int| 0 <= i < j < deltas@.len() implies (#[trigger] deltas@[i]).0 != (
            #[trigger] deltas@[j]).0 by {
                if deltas@[i].0 == deltas@[j].0 {
                    assert(*items[i].0 == *items[j].0);
                    assert(*items[i].1 == *items[j].1);
                    assert(items[i] == items[j]);
                }
            }
            assert forall|n: usize| #[trigger] touched(edges, batch, n) implies exists|i: int|
                0 <= i < deltas@.len() && (#[trigger] deltas@[i]).0 == n by {
                assert(hits.contains_key(n));
                let j = choose|j: int| 0 <= j < items.len() && *(#[trigger] items[j]).0 == n;
                assert(deltas@[j].0 == n);
            }
            assert forall|i: int| 0 <= i < deltas@.len() implies {
                &&& touched(edges, batch, (#[trigger] deltas@[i]).0)
                &&& deltas@[i].0 < post.bit_counters.len()
                &&& deltas@[i].1 == post.bit_counters[deltas@[i].0 as int]
            } by {
                assert(hits.contains_key(*items[i].0));
            }
        }
        deltas
    }
}

/// A sancov index from which the batch reaches a node is covered by it.
pub proof fn lemma_touched_from_covered(edges: Map<(u32, u32), Seq<usize>>, batch: Map<u32, u8>, a: u32, n: usize)
    requires
        touched_from(edges, batch, a, n),
    ensures
        batch.contains_key(a),
{
    let b = choose|b: u32| #[trigger]
        edges.contains_key((a, b)) && batch.contains_key(a) && batch.contains_key(b) && edges[(a, b)].contains(n);
}

/// Taking the same batch a second time changes nothing: the engine after
/// the replay is the engine after the first time.
pub proof fn lemma_replay_changes_nothing(start: FuzzerView, features: Seq<u32>, once: FuzzerView, twice: FuzzerView)
    requires
        propagated(start, features, once),
        propagated(once, features, twice),
    ensures
        twice == once,
{
    assert forall|n: int| 0 <= n < once.bit_counters.len() implies twice.bit_counters[n] == once.bit_counters[n] by {
        assert forall|k: u8| k < 8 implies (#[trigger] bit_set(twice.bit_counters[n], k) <==> bit_set(
            once.bit_counters[n],
            k,
        )) by {
            assert(bit_set(once.bit_counters[n], k) <==> bit_set(start.bit_counters[n], k) || credited(
                start.edges,
                batch_of(start.known, features),
                n as usize,
                k,
            ));
        }
        lemma_same_bits(twice.bit_counters[n], once.bit_counters[n]);
    }
    assert(twice.bit_counters =~= once.bit_counters);
}

/// Two lists that report one batch on one engine hold the same pairs, in
/// whatever order.
pub proof fn lemma_reports_agree(post: FuzzerView, features: Seq<u32>, first: Seq<(usize, u8)>, second: Seq<(usize, u8)>)
    requires
        reports(post, features, first),
        reports(post, features, second),
    ensures
        forall|pair: (usize, u8)| first.contains(pair) <==> second.contains(pair),
{
    let batch = batch_of(post.known, features);
    assert forall|pair: (usize, u8)| first.contains(pair) implies second.contains(pair) by {
        let i = choose|i: int| 0 <= i < first.len() && first[i] == pair;
        assert(touched(post.edges, batch, first[i].0));
        let j = choose|j: int| 0 <= j < second.len() && (#[trigger] second[j]).0 == pair.0;
        assert(second[j] == pair);
    }
    assert forall|pair: (usize, u8)| second.contains(pair) implies first.contains(pair) by {
        let i = choose|i: int| 0 <= i < second.len() && second[i] == pair;
        assert(touched(post.edges, batch, second[i].0));
        let j = choose|j: int| 0 <= j < first.len() && (#[trigger] first[j]).0 == pair.0;
        assert(first[j] == pair);
    }
}

} // verus!
