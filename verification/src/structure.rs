//! The structure graph: the blocks of a normalized control-flow graph as
//! nodes in identifier order, with successor and predecessor links.

use vstd::prelude::*;
use crate::cfg::{BlockView, CfgView, ControlFlowGraph, FunctionView, blocks_dense, blocks_of, lemma_blocks_of_index};
use crate::seqs::{dedup_all, dedup_successors, lemma_dedup_all, lemma_occurrences_concat, lemma_occurrences_contains, occurrences};

verus! {

/// A node: the indices of the nodes that lead to it and of those it leads to.
#[derive(Debug)]
pub struct GraphNode {
    pub predecessors: Vec<u64>,
    pub successors: Vec<u64>,
}

/// A function of the structure graph: its name and the indices of its nodes.
#[derive(Debug)]
pub struct GraphFunction {
    pub name: String,
    pub node_indices: Vec<u64>,
}

/// The structure graph of one fuzzed program.
#[derive(Debug)]
pub struct StructureGraph {
    pub nodes: Vec<GraphNode>,
    pub functions: Vec<GraphFunction>,
}

/// Mathematical value of a [`GraphNode`].
pub struct NodeView {
    pub predecessors: Seq<u64>,
    pub successors: Seq<u64>,
}

/// Mathematical value of a [`GraphFunction`].
pub struct GraphFunctionView {
    pub name: Seq<char>,
    pub node_indices: Seq<u64>,
}

/// Mathematical value of a [`StructureGraph`].
pub struct GraphView {
    pub nodes: Seq<NodeView>,
    pub functions: Seq<GraphFunctionView>,
}

impl View for GraphNode {
    type V = NodeView;

    open spec fn view(&self) -> NodeView {
        NodeView { predecessors: self.predecessors@, successors: self.successors@ }
    }
}

impl View for GraphFunction {
    type V = GraphFunctionView;

    open spec fn view(&self) -> GraphFunctionView {
        GraphFunctionView { name: self.name@, node_indices: self.node_indices@ }
    }
}

impl View for StructureGraph {
    type V = GraphView;

    open spec fn view(&self) -> GraphView {
        GraphView {
            nodes: self.nodes@.map_values(|n: GraphNode| n@),
            functions: self.functions@.map_values(|f: GraphFunction| f@),
        }
    }
}

/// The entries that node `i` with the successors `successors` adds to the
/// predecessors of node `n`: one for each time that `n` is a successor.
pub open spec fn predecessor_entries(successors: Seq<u64>, i: u64, n: u64) -> Seq<u64>
    decreases successors.len(),
{
    if successors.len() == 0 {
        Seq::empty()
    } else if successors.last() == n {
        predecessor_entries(successors.drop_last(), i, n).push(i)
    } else {
        predecessor_entries(successors.drop_last(), i, n)
    }
}

/// The predecessors of node `n` that one pass over the successor lists
/// `lists` derives: node after node, successor after successor, the node is
/// appended to the predecessors of its successor.
pub open spec fn derived_predecessors(lists: Seq<Seq<u64>>, n: u64) -> Seq<u64>
    decreases lists.len(),
{
    if lists.len() == 0 {
        Seq::empty()
    } else {
        derived_predecessors(lists.drop_last(), n) + predecessor_entries(
            lists.last(),
            (lists.len() - 1) as u64,
            n,
        )
    }
}

impl GraphView {
    /// The successor lists of the nodes, in node order.
    pub open spec fn successor_lists(self) -> Seq<Seq<u64>> {
        self.nodes.map_values(|n: NodeView| n.successors)
    }

    /// Every successor and predecessor is the index of a node.
    pub open spec fn links_in_range(self) -> bool {
        &&& forall|n: int, k: int|
            0 <= n < self.nodes.len() && 0 <= k < self.nodes[n].successors.len()
                ==> #[trigger] self.nodes[n].successors[k] < self.nodes.len()
        &&& forall|n: int, k: int|
            0 <= n < self.nodes.len() && 0 <= k < self.nodes[n].predecessors.len()
                ==> #[trigger] self.nodes[n].predecessors[k] < self.nodes.len()
    }

    /// Node `p` is a predecessor of node `n` as often as `n` is a successor
    /// of `p`.
    pub open spec fn links_agree(self) -> bool {
        forall|n: int, p: int|
            0 <= n < self.nodes.len() && 0 <= p < self.nodes.len() ==> #[trigger] occurrences(
                self.nodes[n].predecessors,
                p as u64,
            ) == #[trigger] occurrences(self.nodes[p].successors, n as u64)
    }

    /// Some function lists the node `n`.
    pub open spec fn node_listed(self, n: int) -> bool {
        exists|f: int, j: int|
            0 <= f < self.functions.len() && 0 <= j < self.functions[f].node_indices.len()
                && #[trigger] self.functions[f].node_indices[j] == n
    }

    /// Every function lists indices of nodes only, and every node is listed
    /// by a function.
    pub open spec fn functions_cover_nodes(self) -> bool {
        &&& forall|f: int, j: int|
            0 <= f < self.functions.len() && 0 <= j < self.functions[f].node_indices.len()
                ==> #[trigger] self.functions[f].node_indices[j] < self.nodes.len()
        &&& forall|n: int| 0 <= n < self.nodes.len() ==> #[trigger] self.node_listed(n)
    }

    /// The graph is well formed.
    pub open spec fn wf(self) -> bool {
        &&& self.links_in_range()
        &&& self.links_agree()
        &&& self.functions_cover_nodes()
    }
}

/// The structure-graph function of a control-flow function: its name and
/// the identifiers of its blocks.
pub open spec fn graph_function_of(f: FunctionView) -> GraphFunctionView {
    GraphFunctionView { name: f.name, node_indices: f.blocks.map_values(|b: BlockView| b.id) }
}

/// The graph `g` is the structure graph of the normalized graph `c`: one
/// node for each block, at the index that is the block's identifier, with
/// the block's successors, each listed once; predecessors derived
/// from the successors in one pass; and one function for each function.
pub open spec fn is_structure_of(g: GraphView, c: CfgView) -> bool {
    let bs = c.blocks();
    &&& g.nodes.len() == bs.len()
    &&& forall|i: int|
        0 <= i < bs.len() ==> g.nodes[(#[trigger] bs[i]).id as int].successors == dedup_all(bs[i].successors)
    &&& forall|n: int|
        0 <= n < g.nodes.len() ==> (#[trigger] g.nodes[n]).predecessors == derived_predecessors(
            g.successor_lists(),
            n as u64,
        )
    &&& g.functions == c.functions.map_values(|f: FunctionView| graph_function_of(f))
}

/// Node `i` occurs among its entries for `n` as often as `n` is among its
/// successors, and no other node occurs there.
pub proof fn lemma_predecessor_entries(successors: Seq<u64>, i: u64, n: u64, p: u64)
    ensures
        occurrences(predecessor_entries(successors, i, n), p) == if p == i {
            occurrences(successors, n)
        } else {
            0
        },
        forall|k: int|
            0 <= k < predecessor_entries(successors, i, n).len() ==> predecessor_entries(successors, i, n)[k]
                == i,
    decreases successors.len(),
{
    if successors.len() > 0 {
        lemma_predecessor_entries(successors.drop_last(), i, n, p);
        if successors.last() == n {
            assert(predecessor_entries(successors, i, n).drop_last() =~= predecessor_entries(
                successors.drop_last(),
                i,
                n,
            ));
        }
    }
}

/// Among the derived predecessors of `n`, a node occurs as often as `n` is
/// among its successors, and only indices of nodes occur.
pub proof fn lemma_derived_predecessors(lists: Seq<Seq<u64>>, n: u64, p: u64)
    requires
        lists.len() <= u64::MAX,
    ensures
        occurrences(derived_predecessors(lists, n), p) == if p < lists.len() {
            occurrences(lists[p as int], n)
        } else {
            0
        },
        forall|k: int|
            0 <= k < derived_predecessors(lists, n).len() ==> derived_predecessors(lists, n)[k] < lists.len(),
    decreases lists.len(),
{
    if lists.len() > 0 {
        let front = lists.drop_last();
        let i = (lists.len() - 1) as u64;
        lemma_derived_predecessors(front, n, p);
        lemma_predecessor_entries(lists.last(), i, n, p);
        lemma_occurrences_concat(derived_predecessors(front, n), predecessor_entries(lists.last(), i, n), p);
        if p < front.len() {
            assert(front[p as int] == lists[p as int]);
        }
    }
}

/// In a well-formed graph, node `p` is among the predecessors of node `n`
/// just if `n` is among the successors of `p`.
pub proof fn lemma_predecessors_mirror_successors(g: GraphView, n: int, p: int)
    requires
        g.wf(),
        0 <= n < g.nodes.len(),
        0 <= p < g.nodes.len(),
        g.nodes.len() <= u64::MAX,
    ensures
        g.nodes[n].predecessors.contains(p as u64) <==> g.nodes[p].successors.contains(n as u64),
{
    lemma_occurrences_contains(g.nodes[n].predecessors, p as u64);
    lemma_occurrences_contains(g.nodes[p].successors, n as u64);
}

/// Builds the structure graph of a normalized control-flow graph. The node
/// of a block stands at the index that is the block's identifier, so the
/// nodes are in ascending identifier order. A node's successors are those of
/// its block, each listed once, where it stood first. The predecessors are derived in
/// one pass: for every node `i` in order and every successor `s` of it in
/// order, `i` is appended to the predecessors of `s`. Each function keeps
/// its name and lists the identifiers of its blocks.
pub fn build_structure_graph(cfg: &ControlFlowGraph) -> (graph: StructureGraph)
    requires
        cfg@.is_normalized(),
    ensures
        is_structure_of(graph@, cfg@),
        graph@.wf(),
{
    let ghost c = cfg@;
    let ghost fs = c.functions;
    let ghost bs = c.blocks();
    let mut nodes: Vec<GraphNode> = Vec::new();
    let mut functions: Vec<GraphFunction> = Vec::new();
    let mut i: usize = 0;
    proof {
        assert(fs.take(0) =~= Seq::<FunctionView>::empty());
    }
    while i < cfg.functions.len()
        invariant
            i <= cfg.functions.len(),
            c == cfg@,
            fs == c.functions,
            nodes@.len() == blocks_of(fs.take(i as int)).len(),
            forall|n: int|
                0 <= n < nodes@.len() ==> (#[trigger] nodes@[n]).successors@.len() == 0
                    && nodes@[n].predecessors@.len() == 0,
            functions@.len() == i,
            forall|x: int| 0 <= x < i ==> (#[trigger] functions@[x])@ == graph_function_of(fs[x]),
        decreases cfg.functions.len() - i,
    {
        let function = &cfg.functions[i];
        let ghost f = fs[i as int];
        let ghost start = nodes@.len();
        let mut node_indices: Vec<u64> = Vec::new();
        let mut j: usize = 0;
        proof {
            assert(function@ == f);
            lemma_function_blocks(fs, i as int);
        }
        while j < function.basic_blocks.len()
            invariant
                j <= function.basic_blocks.len(),
                f == function@,
                nodes@.len() == start + j,
                forall|n: int|
                    0 <= n < nodes@.len() ==> (#[trigger] nodes@[n]).successors@.len() == 0
                        && nodes@[n].predecessors@.len() == 0,
                node_indices@.len() == j,
                forall|x: int| 0 <= x < j ==> node_indices@[x] == (#[trigger] f.blocks[x]).id,
            decreases function.basic_blocks.len() - j,
        {
            assert(function.basic_blocks@[j as int]@ == f.blocks[j as int]);
            node_indices.push(function.basic_blocks[j].id);
            nodes.push(GraphNode { predecessors: Vec::new(), successors: Vec::new() });
            j += 1;
        }
        proof {
            assert(node_indices@ =~= f.blocks.map_values(|b: BlockView| b.id));
        }
        functions.push(GraphFunction { name: function.name.clone(), node_indices });
        i += 1;
    }
    proof {
        assert(fs.take(i as int) =~= fs);
    }
    let count: usize = nodes.len();
    // successors
    let mut i: usize = 0;
    proof {
        assert(fs.take(0) =~= Seq::<FunctionView>::empty());
    }
    while i < cfg.functions.len()
        invariant
            i <= cfg.functions.len(),
            c == cfg@,
            fs == c.functions,
            bs == c.blocks(),
            blocks_dense(bs),
            count == bs.len(),
            nodes@.len() == count,
            forall|n: int| 0 <= n < count ==> (#[trigger] nodes@[n]).predecessors@.len() == 0,
            forall|n: int, k: int|
                0 <= n < count && 0 <= k < nodes@[n].successors@.len() ==> #[trigger] nodes@[n].successors@[k]
                    < count,
            forall|q: int|
                0 <= q < blocks_of(fs.take(i as int)).len() ==> nodes@[(#[trigger] bs[q]).id as int].successors@
                    == dedup_all(bs[q].successors),
        decreases cfg.functions.len() - i,
    {
        let function = &cfg.functions[i];
        let ghost f = fs[i as int];
        let ghost start = blocks_of(fs.take(i as int)).len();
        let mut j: usize = 0;
        proof {
            assert(function@ == f);
            lemma_function_blocks(fs, i as int);
        }
        while j < function.basic_blocks.len()
            invariant
                j <= function.basic_blocks.len(),
                0 <= i < fs.len(),
                f == function@,
                f == fs[i as int],
                c == cfg@,
                fs == c.functions,
                bs == c.blocks(),
                blocks_dense(bs),
                count == bs.len(),
                nodes@.len() == count,
                start == blocks_of(fs.take(i as int)).len(),
                start + f.blocks.len() <= bs.len(),
                forall|x: int| 0 <= x < f.blocks.len() ==> bs[start + x] == #[trigger] f.blocks[x],
                forall|n: int| 0 <= n < count ==> (#[trigger] nodes@[n]).predecessors@.len() == 0,
                forall|n: int, k: int|
                    0 <= n < count && 0 <= k < nodes@[n].successors@.len()
                        ==> #[trigger] nodes@[n].successors@[k] < count,
                forall|q: int|
                    0 <= q < start + j ==> nodes@[(#[trigger] bs[q]).id as int].successors@ == dedup_all(
                        bs[q].successors,
                    ),
            decreases function.basic_blocks.len() - j,
        {
            let block = &function.basic_blocks[j];
            let ghost b = f.blocks[j as int];
            let ghost q0 = start + j;
            proof {
                assert(block@ == b);
                assert(bs[q0] == b);
                assert(bs[q0].id < count);
            }
            let mut successors: Vec<u64> = block.successors.clone();
            dedup_successors(&mut successors);
            proof {
                assert forall|k: int| 0 <= k < successors@.len() implies #[trigger] successors@[k] < count by {
                    let x = successors@[k];
                    assert(successors@.contains(x));
                    lemma_dedup_all(b.successors);
                    assert(dedup_all(b.successors).contains(x));
                    assert(b.successors.contains(x));
                    let t = choose|t: int| 0 <= t < b.successors.len() && b.successors[t] == x;
                    assert(bs[q0].successors[t] < bs.len());
                }
            }
            let node_index: usize = block.id as usize;
            let ghost before = nodes@;
            nodes[node_index].successors = successors;
            proof {
                assert forall|q: int| 0 <= q < start + j + 1 implies nodes@[(#[trigger] bs[q]).id as int].successors@
                    == dedup_all(bs[q].successors) by {
                    if q < q0 {
                        assert(bs[q].id != bs[q0].id);
                        assert(nodes@[bs[q].id as int] == before[bs[q].id as int]);
                    }
                }
            }
            j += 1;
        }
        i += 1;
    }
    proof {
        assert(fs.take(i as int) =~= fs);
    }
    // predecessors
    let ghost lists = nodes@.map_values(|n: GraphNode| n.successors@);
    let mut node_index: usize = 0;
    proof {
        assert(lists.take(0) =~= Seq::<Seq<u64>>::empty());
    }
    while node_index < count
        invariant
            node_index <= count,
            nodes@.len() == count,
            lists.len() == count,
            forall|n: int| 0 <= n < count ==> (#[trigger] nodes@[n]).successors@ == lists[n],
            forall|n: int, k: int| 0 <= n < count && 0 <= k < lists[n].len() ==> #[trigger] lists[n][k] < count,
            forall|n: int|
                0 <= n < count ==> (#[trigger] nodes@[n]).predecessors@ == derived_predecessors(
                    lists.take(node_index as int),
                    n as u64,
                ),
        decreases count - node_index,
    {
        let successor_count: usize = nodes[node_index].successors.len();
        let ghost own = lists[node_index as int];
        let mut successor_index: usize = 0;
        proof {
            assert(own.take(0) =~= Seq::<u64>::empty());
            assert forall|n: int| 0 <= n < count implies (#[trigger] nodes@[n]).predecessors@
                == derived_predecessors(lists.take(node_index as int), n as u64) + predecessor_entries(
                own.take(0),
                node_index as u64,
                n as u64,
            ) by {}
        }
        while successor_index < successor_count
            invariant
                node_index < count,
                successor_index <= successor_count,
                successor_count == own.len(),
                own == lists[node_index as int],
                nodes@.len() == count,
                lists.len() == count,
                forall|n: int| 0 <= n < count ==> (#[trigger] nodes@[n]).successors@ == lists[n],
                forall|n: int, k: int|
                    0 <= n < count && 0 <= k < lists[n].len() ==> #[trigger] lists[n][k] < count,
                forall|n: int|
                    0 <= n < count ==> (#[trigger] nodes@[n]).predecessors@ == derived_predecessors(
                        lists.take(node_index as int),
                        n as u64,
                    ) + predecessor_entries(own.take(successor_index as int), node_index as u64, n as u64),
            decreases successor_count - successor_index,
        {
            let successor: u64 = nodes[node_index].successors[successor_index];
            proof {
                assert(successor == own[successor_index as int]);
                assert(own.take(successor_index + 1).drop_last() =~= own.take(successor_index as int));
            }
            nodes[successor as usize].predecessors.push(node_index as u64);
            successor_index += 1;
        }
        proof {
            assert(own.take(successor_index as int) =~= own);
            assert(lists.take(node_index + 1).drop_last() =~= lists.take(node_index as int));
        }
        node_index += 1;
    }
    let graph = StructureGraph { nodes, functions };
    proof {
        let g = graph@;
        assert(lists.take(node_index as int) =~= lists);
        assert(g.successor_lists() =~= lists);
        assert(g.functions =~= c.functions.map_values(|f: FunctionView| graph_function_of(f)));
        assert forall|n: int, p: int| 0 <= n < g.nodes.len() && 0 <= p < g.nodes.len() implies #[trigger] occurrences(
            g.nodes[n].predecessors,
            p as u64,
        ) == #[trigger] occurrences(g.nodes[p].successors, n as u64) by {
            lemma_derived_predecessors(lists, n as u64, p as u64);
        }
        assert forall|n: int, k: int|
            0 <= n < g.nodes.len() && 0 <= k < g.nodes[n].predecessors.len()
                implies #[trigger] g.nodes[n].predecessors[k] < g.nodes.len() by {
            lemma_derived_predecessors(lists, n as u64, 0);
        }
        assert forall|f: int, j: int|
            0 <= f < g.functions.len() && 0 <= j < g.functions[f].node_indices.len()
                implies #[trigger] g.functions[f].node_indices[j] < g.nodes.len() by {
            lemma_blocks_of_index(fs, f, j);
        }
        assert forall|n: int| 0 <= n < g.nodes.len() implies #[trigger] g.node_listed(n) by {
            let q = lemma_identifier_used(bs, n);
            let fj = crate::cfg::lemma_blocks_of_position(fs, q);
            assert(g.functions[fj.0].node_indices[fj.1] == n);
        }
    }
    graph
}

/// The blocks of function `i` stand together among all blocks, after those
/// of the functions before it.
pub proof fn lemma_function_blocks(fs: Seq<FunctionView>, i: int)
    requires
        0 <= i < fs.len(),
    ensures
        blocks_of(fs.take(i + 1)) == blocks_of(fs.take(i)) + fs[i].blocks,
        blocks_of(fs.take(i)).len() + fs[i].blocks.len() <= blocks_of(fs).len(),
        forall|x: int|
            0 <= x < fs[i].blocks.len() ==> blocks_of(fs)[blocks_of(fs.take(i)).len() + x]
                == #[trigger] fs[i].blocks[x],
{
    assert(fs.take(i + 1).drop_last() =~= fs.take(i));
    assert forall|x: int| 0 <= x < fs[i].blocks.len() implies blocks_of(fs)[blocks_of(fs.take(i)).len() + x]
        == #[trigger] fs[i].blocks[x] by {
        lemma_blocks_of_index(fs, i, x);
    }
    if fs[i].blocks.len() > 0 {
        lemma_blocks_of_index(fs, i, fs[i].blocks.len() - 1);
    } else {
        crate::concat::lemma_blocks_of_concat(fs.take(i), fs.skip(i));
        assert(fs.take(i) + fs.skip(i) =~= fs);
    }
}

/// Among blocks whose identifiers are exactly `0 .. N`, each of these
/// numbers is the identifier of a block.
pub proof fn lemma_identifier_used(bs: Seq<BlockView>, n: int) -> (q: int)
    requires
        blocks_dense(bs),
        0 <= n < bs.len(),
    ensures
        0 <= q < bs.len(),
        bs[q].id == n,
{
    let ids = bs.map_values(|b: BlockView| b.id as int);
    assert(ids.no_duplicates());
    let all = Set::new(|x: int| 0 <= x < bs.len());
    vstd::set_lib::lemma_int_range(0, bs.len() as int);
    assert(all =~= vstd::set_lib::set_int_range(0, bs.len() as int));
    ids.unique_seq_to_set();
    assert(ids.to_set().subset_of(all)) by {
        assert forall|x: int| ids.to_set().contains(x) implies all.contains(x) by {
            let t = choose|t: int| 0 <= t < ids.len() && ids[t] == x;
            assert(bs[t].id < bs.len());
        }
    }
    vstd::set_lib::lemma_subset_equality(ids.to_set(), all);
    assert(ids.to_set().contains(n));
    let q = choose|q: int| 0 <= q < ids.len() && ids[q] == n;
    q
}

/// Says whether a control-flow graph is in normal form, so that its
/// structure graph can be built.
pub fn is_normalized(cfg: &ControlFlowGraph) -> (ok: bool)
    ensures
        ok == cfg@.is_normalized(),
{
    let ghost c = cfg@;
    let ghost fs = c.functions;
    let ghost bs = c.blocks();
    let mut seen: Vec<bool> = Vec::new();
    let mut i: usize = 0;
    proof {
        assert(fs.take(0) =~= Seq::<FunctionView>::empty());
    }
    while i < cfg.functions.len()
        invariant
            i <= cfg.functions.len(),
            c == cfg@,
            fs == c.functions,
            seen@.len() == blocks_of(fs.take(i as int)).len(),
            forall|x: int| 0 <= x < seen@.len() ==> !#[trigger] seen@[x],
        decreases cfg.functions.len() - i,
    {
        let function = &cfg.functions[i];
        let ghost start = seen@.len();
        let mut j: usize = 0;
        proof {
            assert(function@ == fs[i as int]);
            lemma_function_blocks(fs, i as int);
        }
        while j < function.basic_blocks.len()
            invariant
                j <= function.basic_blocks.len(),
                seen@.len() == start + j,
                forall|x: int| 0 <= x < seen@.len() ==> !#[trigger] seen@[x],
            decreases function.basic_blocks.len() - j,
        {
            seen.push(false);
            j += 1;
        }
        i += 1;
    }
    proof {
        assert(fs.take(i as int) =~= fs);
    }
    let count: usize = seen.len();
    let mut i: usize = 0;
    proof {
        assert(fs.take(0) =~= Seq::<FunctionView>::empty());
    }
    while i < cfg.functions.len()
        invariant
            i <= cfg.functions.len(),
            c == cfg@,
            fs == c.functions,
            bs == c.blocks(),
            count == bs.len(),
            seen@.len() == count,
            blocks_of(fs.take(i as int)).len() <= bs.len(),
            prefix_dense(bs, blocks_of(fs.take(i as int)).len() as int),
            forall|x: int|
                0 <= x < count ==> (#[trigger] seen@[x] <==> exists|q: int|
                    0 <= q < blocks_of(fs.take(i as int)).len() && (#[trigger] bs[q]).id == x),
        decreases cfg.functions.len() - i,
    {
        let function = &cfg.functions[i];
        let ghost f = fs[i as int];
        let ghost start = blocks_of(fs.take(i as int)).len();
        let mut j: usize = 0;
        proof {
            assert(function@ == f);
            lemma_function_blocks(fs, i as int);
        }
        while j < function.basic_blocks.len()
            invariant
                j <= function.basic_blocks.len(),
                0 <= i < fs.len(),
                f == function@,
                f == fs[i as int],
                c == cfg@,
                bs == c.blocks(),
                count == bs.len(),
                seen@.len() == count,
                start == blocks_of(fs.take(i as int)).len(),
                start + f.blocks.len() <= bs.len(),
                forall|x: int| 0 <= x < f.blocks.len() ==> bs[start + x] == #[trigger] f.blocks[x],
                prefix_dense(bs, start + j),
                forall|x: int|
                    0 <= x < count ==> (#[trigger] seen@[x] <==> exists|q: int|
                        0 <= q < start + j && (#[trigger] bs[q]).id == x),
            decreases function.basic_blocks.len() - j,
        {
            let block = &function.basic_blocks[j];
            let ghost q0 = start + j;
            let ghost marked = seen@;
            proof {
                assert(block@ == f.blocks[j as int]);
                assert(bs[q0] == block@);
            }
            if block.id >= count as u64 {
                proof {
                    assert(!(bs[q0].id < bs.len()));
                    assert(!blocks_dense(bs));
                }
                return false;
            }
            let node_index: usize = block.id as usize;
            if seen[node_index] {
                proof {
                    let q = choose|q: int| 0 <= q < start + j && (#[trigger] bs[q]).id == node_index;
                    assert(bs[q].id == bs[q0].id);
                    assert(!blocks_dense(bs));
                }
                return false;
            }
            let mut k: usize = 0;
            while k < block.successors.len()
                invariant
                    k <= block.successors.len(),
                    0 <= q0 < bs.len(),
                    bs[q0] == block@,
                    c == cfg@,
                    bs == c.blocks(),
                    count == bs.len(),
                    forall|t: int| 0 <= t < k ==> #[trigger] bs[q0].successors[t] < count,
                decreases block.successors.len() - k,
            {
                if block.successors[k] >= count as u64 {
                    proof {
                        assert(!(bs[q0].successors[k as int] < bs.len()));
                        assert(!blocks_dense(bs));
                    }
                    return false;
                }
                k += 1;
            }
            seen[node_index] = true;
            proof {
                assert forall|x: int| 0 <= x < count implies (#[trigger] seen@[x] <==> exists|q: int|
                    0 <= q < start + j + 1 && (#[trigger] bs[q]).id == x) by {
                    if marked[x] {
                        let q = choose|q: int| 0 <= q < start + j && (#[trigger] bs[q]).id == x;
                        assert(0 <= q < start + j + 1);
                    }
                    if exists|q: int| 0 <= q < start + j + 1 && (#[trigger] bs[q]).id == x {
                        let q = choose|q: int| 0 <= q < start + j + 1 && (#[trigger] bs[q]).id == x;
                        if q < q0 {
                            assert(marked[x]);
                        }
                    }
                }
                assert(prefix_dense(bs, start + j + 1)) by {
                    assert forall|a: int, b: int| 0 <= a < b < start + j + 1 implies (#[trigger] bs[a]).id != (
                    #[trigger] bs[b]).id by {
                        if b == q0 && bs[a].id == bs[b].id {
                            assert(marked[node_index as int]);
                        }
                    }
                }
            }
            j += 1;
        }
        i += 1;
    }
    proof {
        assert(fs.take(i as int) =~= fs);
    }
    true
}

/// The first `count` of the blocks `bs` have identifiers below the number
/// of all blocks, each used once, and successors below that number.
pub open spec fn prefix_dense(bs: Seq<BlockView>, count: int) -> bool {
    &&& forall|i: int| 0 <= i < count ==> (#[trigger] bs[i]).id < bs.len()
    &&& forall|i: int, j: int| 0 <= i < j < count ==> (#[trigger] bs[i]).id != (#[trigger] bs[j]).id
    &&& forall|i: int, k: int|
        0 <= i < count && 0 <= k < bs[i].successors.len() ==> #[trigger] (#[trigger] bs[i]).successors[k] < bs.len()
}

/// Counts how often a value stands in a list.
fn count_occurrences(list: &Vec<u64>, x: u64) -> (count: usize)
    ensures
        count == occurrences(list@, x),
{
    let mut count: usize = 0;
    let mut i: usize = 0;
    proof {
        assert(list@.take(0) =~= Seq::<u64>::empty());
    }
    while i < list.len()
        invariant
            i <= list.len(),
            count == occurrences(list@.take(i as int), x),
            count <= i,
        decreases list.len() - i,
    {
        proof {
            assert(list@.take(i + 1).drop_last() =~= list@.take(i as int));
        }
        if list[i] == x {
            count += 1;
        }
        i += 1;
    }
    proof {
        assert(list@.take(i as int) =~= list@);
    }
    count
}

/// Says whether every successor and predecessor is the index of a node.
fn links_are_in_range(graph: &StructureGraph) -> (ok: bool)
    ensures
        ok == graph@.links_in_range(),
{
    let ghost g = graph@;
    let count: usize = graph.nodes.len();
    let mut n: usize = 0;
    while n < count
        invariant
            n <= count,
            g == graph@,
            count == g.nodes.len(),
            forall|a: int, k: int|
                0 <= a < n && 0 <= k < g.nodes[a].successors.len() ==> #[trigger] g.nodes[a].successors[k] < count,
            forall|a: int, k: int|
                0 <= a < n && 0 <= k < g.nodes[a].predecessors.len() ==> #[trigger] g.nodes[a].predecessors[k] < count,
        decreases count - n,
    {
        let node = &graph.nodes[n];
        assert(g.nodes[n as int] == node@);
        let mut k: usize = 0;
        while k < node.successors.len()
            invariant
                k <= node.successors.len(),
                n < count,
                g == graph@,
                count == g.nodes.len(),
                g.nodes[n as int] == node@,
                forall|t: int| 0 <= t < k ==> #[trigger] g.nodes[n as int].successors[t] < count,
            decreases node.successors.len() - k,
        {
            if node.successors[k] >= count as u64 {
                proof {
                    assert(!(g.nodes[n as int].successors[k as int] < g.nodes.len()));
                }
                return false;
            }
            k += 1;
        }
        let mut k: usize = 0;
        while k < node.predecessors.len()
            invariant
                k <= node.predecessors.len(),
                n < count,
                g == graph@,
                count == g.nodes.len(),
                g.nodes[n as int] == node@,
                forall|t: int| 0 <= t < k ==> #[trigger] g.nodes[n as int].predecessors[t] < count,
            decreases node.predecessors.len() - k,
        {
            if node.predecessors[k] >= count as u64 {
                proof {
                    assert(!(g.nodes[n as int].predecessors[k as int] < g.nodes.len()));
                }
                return false;
            }
            k += 1;
        }
        n += 1;
    }
    true
}

/// Says whether every node is a predecessor as often as it has the other as
/// successor.
fn links_do_agree(graph: &StructureGraph) -> (ok: bool)
    ensures
        ok == graph@.links_agree(),
{
    let ghost g = graph@;
    let count: usize = graph.nodes.len();
    let mut n: usize = 0;
    while n < count
        invariant
            n <= count,
            g == graph@,
            count == g.nodes.len(),
            forall|a: int, p: int|
                0 <= a < n && 0 <= p < count ==> #[trigger] occurrences(g.nodes[a].predecessors, p as u64)
                    == #[trigger] occurrences(g.nodes[p].successors, a as u64),
        decreases count - n,
    {
        let mut p: usize = 0;
        while p < count
            invariant
                p <= count,
                n < count,
                g == graph@,
                count == g.nodes.len(),
                forall|b: int|
                    0 <= b < p ==> #[trigger] occurrences(g.nodes[n as int].predecessors, b as u64) == occurrences(
                        g.nodes[b].successors,
                        n as u64,
                    ),
            decreases count - p,
        {
            assert(g.nodes[n as int] == graph.nodes@[n as int]@);
            assert(g.nodes[p as int] == graph.nodes@[p as int]@);
            let as_predecessor: usize = count_occurrences(&graph.nodes[n].predecessors, p as u64);
            let as_successor: usize = count_occurrences(&graph.nodes[p].successors, n as u64);
            if as_predecessor != as_successor {
                proof {
                    assert(occurrences(g.nodes[n as int].predecessors, p as u64) != occurrences(
                        g.nodes[p as int].successors,
                        n as u64,
                    ));
                }
                return false;
            }
            p += 1;
        }
        n += 1;
    }
    true
}

/// Function `f` lists node `x` among its first `j` entries, or a function
/// before it lists the node.
pub open spec fn listed_through(g: GraphView, f: int, j: int, x: int) -> bool {
    exists|a: int, b: int|
        0 <= a < g.functions.len() && 0 <= b < g.functions[a].node_indices.len() && (a < f || (a == f && b < j))
            && #[trigger] g.functions[a].node_indices[b] == x
}

/// Says whether the functions list nodes only, and every node.
fn functions_do_cover(graph: &StructureGraph) -> (ok: bool)
    ensures
        ok == graph@.functions_cover_nodes(),
{
    let ghost g = graph@;
    let count: usize = graph.nodes.len();
    let mut listed: Vec<bool> = Vec::new();
    let mut n: usize = 0;
    while n < count
        invariant
            n <= count,
            listed@.len() == n,
            forall|x: int| 0 <= x < n ==> !#[trigger] listed@[x],
        decreases count - n,
    {
        listed.push(false);
        n += 1;
    }
    let function_count: usize = graph.functions.len();
    let mut f: usize = 0;
    while f < function_count
        invariant
            f <= function_count,
            g == graph@,
            count == g.nodes.len(),
            function_count == g.functions.len(),
            listed@.len() == count,
            forall|a: int, b: int|
                0 <= a < f && 0 <= b < g.functions[a].node_indices.len() ==> #[trigger] g.functions[a].node_indices[b]
                    < count,
            forall|x: int| 0 <= x < count ==> (#[trigger] listed@[x] <==> listed_through(g, f as int, 0, x)),
        decreases function_count - f,
    {
        let function = &graph.functions[f];
        assert(g.functions[f as int] == function@);
        let mut j: usize = 0;
        while j < function.node_indices.len()
            invariant
                j <= function.node_indices.len(),
                f < function_count,
                g == graph@,
                count == g.nodes.len(),
                function_count == g.functions.len(),
                g.functions[f as int] == function@,
                listed@.len() == count,
                forall|b: int| 0 <= b < j ==> #[trigger] g.functions[f as int].node_indices[b] < count,
                forall|x: int| 0 <= x < count ==> (#[trigger] listed@[x] <==> listed_through(g, f as int, j as int, x)),
            decreases function.node_indices.len() - j,
        {
            let node_index: u64 = function.node_indices[j];
            if node_index >= count as u64 {
                proof {
                    assert(!(g.functions[f as int].node_indices[j as int] < g.nodes.len()));
                }
                return false;
            }
            let ghost marked = listed@;
            listed[node_index as usize] = true;
            proof {
                assert forall|x: int| 0 <= x < count implies (#[trigger] listed@[x] <==> listed_through(
                    g,
                    f as int,
                    j + 1,
                    x,
                )) by {
                    if listed_through(g, f as int, j as int, x) {
                        let (a, b) = choose|a: int, b: int|
                            0 <= a < g.functions.len() && 0 <= b < g.functions[a].node_indices.len() && (a < f || (a
                                == f && b < j)) && #[trigger] g.functions[a].node_indices[b] == x;
                        assert(a < f || (a == f && b < j + 1));
                    }
                    if x == node_index {
                        assert(g.functions[f as int].node_indices[j as int] == x);
                    }
                    if listed_through(g, f as int, j + 1, x) {
                        let (a, b) = choose|a: int, b: int|
                            0 <= a < g.functions.len() && 0 <= b < g.functions[a].node_indices.len() && (a < f || (a
                                == f && b < j + 1)) && #[trigger] g.functions[a].node_indices[b] == x;
                        if !(a == f && b == j) {
                            assert(a < f || (a == f && b < j));
                            assert(marked[x]);
                        }
                    }
                }
            }
            j += 1;
        }
        proof {
            assert forall|x: int| 0 <= x < count implies (#[trigger] listed@[x] <==> listed_through(g, f + 1, 0, x)) by {
                if listed_through(g, f as int, j as int, x) {
                    let (a, b) = choose|a: int, b: int|
                        0 <= a < g.functions.len() && 0 <= b < g.functions[a].node_indices.len() && (a < f || (a == f
                            && b < j)) && #[trigger] g.functions[a].node_indices[b] == x;
                    assert(a < f + 1);
                }
                if listed_through(g, f + 1, 0, x) {
                    let (a, b) = choose|a: int, b: int|
                        0 <= a < g.functions.len() && 0 <= b < g.functions[a].node_indices.len() && (a < f + 1 || (a
                            == f + 1 && b < 0)) && #[trigger] g.functions[a].node_indices[b] == x;
                    assert(a < f || (a == f && b < j));
                }
            }
        }
        f += 1;
    }
    let mut n: usize = 0;
    while n < count
        invariant
            n <= count,
            g == graph@,
            count == g.nodes.len(),
            function_count == g.functions.len(),
            listed@.len() == count,
            forall|x: int| 0 <= x < count ==> (#[trigger] listed@[x] <==> listed_through(g, function_count as int, 0, x)),
            forall|x: int| 0 <= x < n ==> #[trigger] g.node_listed(x),
        decreases count - n,
    {
        if !listed[n] {
            proof {
                if g.node_listed(n as int) {
                    let (a, b) = choose|a: int, b: int|
                        0 <= a < g.functions.len() && 0 <= b < g.functions[a].node_indices.len()
                            && #[trigger] g.functions[a].node_indices[b] == n;
                    assert(listed_through(g, function_count as int, 0, n as int));
                }
            }
            return false;
        }
        proof {
            let (a, b) = choose|a: int, b: int|
                0 <= a < g.functions.len() && 0 <= b < g.functions[a].node_indices.len() && (a < function_count || (a
                    == function_count && b < 0)) && #[trigger] g.functions[a].node_indices[b] == n;
            assert(g.node_listed(n as int));
        }
        n += 1;
    }
    true
}

/// Says whether a structure graph is well formed, so that an observer can
/// take it.
pub fn is_well_formed(graph: &StructureGraph) -> (ok: bool)
    ensures
        ok == graph@.wf(),
{
    links_are_in_range(graph) && links_do_agree(graph) && functions_do_cover(graph)
}

} // verus!
