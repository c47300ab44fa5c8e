//! Control-flow graphs as the fuzzing processes report them.

use vstd::prelude::*;

verus! {

/// Sancov index of a basic block that carries no instrumentation.
pub const NO_SANCOV_INDEX: u32 = 0xffff_ffff;

/// Corpus id of a feature batch that is attributed to no corpus input.
pub const NO_CORPUS_ID: u64 = 0xffff_ffff_ffff_ffff;

/// A basic block: its identifier, the identifiers of its successors in order,
/// and its instrumentation slot, or `NO_SANCOV_INDEX`.
#[derive(Debug)]
pub struct BasicBlock {
    pub id: u64,
    pub successors: Vec<u64>,
    pub sancov_index: u32,
}

/// A function: a name and its basic blocks in order.
#[derive(Debug)]
pub struct Function {
    pub id: u64,
    pub name: String,
    pub basic_blocks: Vec<BasicBlock>,
}

/// A control-flow graph: an ordered list of functions.
#[derive(Debug)]
pub struct ControlFlowGraph {
    pub functions: Vec<Function>,
}

/// Mathematical value of a [`BasicBlock`].
pub struct BlockView {
    pub id: u64,
    pub successors: Seq<u64>,
    pub sancov_index: u32,
}

/// Mathematical value of a [`Function`].
pub struct FunctionView {
    pub id: u64,
    pub name: Seq<char>,
    pub blocks: Seq<BlockView>,
}

/// Mathematical value of a [`ControlFlowGraph`].
pub struct CfgView {
    pub functions: Seq<FunctionView>,
}

impl View for BasicBlock {
    type V = BlockView;

    open spec fn view(&self) -> BlockView {
        BlockView { id: self.id, successors: self.successors@, sancov_index: self.sancov_index }
    }
}

impl View for Function {
    type V = FunctionView;

    open spec fn view(&self) -> FunctionView {
        FunctionView {
            id: self.id,
            name: self.name@,
            blocks: self.basic_blocks@.map_values(|b: BasicBlock| b@),
        }
    }
}

impl View for ControlFlowGraph {
    type V = CfgView;

    open spec fn view(&self) -> CfgView {
        CfgView { functions: self.functions@.map_values(|f: Function| f@) }
    }
}

impl BlockView {
    /// The block carries an instrumentation slot.
    pub open spec fn instrumented(self) -> bool {
        self.sancov_index != NO_SANCOV_INDEX
    }
}

/// The blocks of the functions `fs`, function after function.
pub open spec fn blocks_of(fs: Seq<FunctionView>) -> Seq<BlockView>
    decreases fs.len(),
{
    if fs.len() == 0 {
        Seq::empty()
    } else {
        blocks_of(fs.drop_last()) + fs.last().blocks
    }
}

/// The identifiers of the blocks `bs` are exactly `0 .. bs.len()`, each used
/// once, and every successor is one of them.
pub open spec fn blocks_dense(bs: Seq<BlockView>) -> bool {
    &&& forall|i: int| 0 <= i < bs.len() ==> (#[trigger] bs[i]).id < bs.len()
    &&& forall|i: int, j: int| 0 <= i < j < bs.len() ==> (#[trigger] bs[i]).id != (#[trigger] bs[j]).id
    &&& forall|i: int, k: int|
        0 <= i < bs.len() && 0 <= k < bs[i].successors.len() ==> #[trigger] (#[trigger] bs[i]).successors[k]
            < bs.len()
}

impl CfgView {
    /// All blocks of the graph, function after function.
    pub open spec fn blocks(self) -> Seq<BlockView> {
        blocks_of(self.functions)
    }

    /// The graph is in normal form: over all functions the block identifiers
    /// are exactly `0 .. N` for `N` blocks, each used once, and every
    /// successor names one of them.
    pub open spec fn is_normalized(self) -> bool {
        blocks_dense(self.blocks())
    }
}

/// Where the block `j` of function `i` stands among all blocks.
pub open spec fn block_position(fs: Seq<FunctionView>, i: int, j: int) -> int {
    blocks_of(fs.take(i)).len() + j
}

/// Every block of every function occurs among all blocks, at its position.
pub proof fn lemma_blocks_of_index(fs: Seq<FunctionView>, i: int, j: int)
    requires
        0 <= i < fs.len(),
        0 <= j < fs[i].blocks.len(),
    ensures
        0 <= block_position(fs, i, j) < blocks_of(fs).len(),
        blocks_of(fs)[block_position(fs, i, j)] == fs[i].blocks[j],
        blocks_of(fs.take(i + 1)) == blocks_of(fs.take(i)) + fs[i].blocks,
    decreases fs.len(),
{
    assert(fs.take(i + 1).drop_last() =~= fs.take(i));
    if i == fs.len() - 1 {
        assert(fs.take(i) =~= fs.drop_last());
        assert(fs.take(i + 1) =~= fs);
    } else {
        lemma_blocks_of_index(fs.drop_last(), i, j);
        assert(fs.drop_last().take(i) =~= fs.take(i));
        assert(fs.drop_last().take(i + 1) =~= fs.take(i + 1));
    }
}

/// Every position among all blocks is that of one block of one function.
pub proof fn lemma_blocks_of_position(fs: Seq<FunctionView>, p: int) -> (ij: (int, int))
    requires
        0 <= p < blocks_of(fs).len(),
    ensures
        0 <= ij.0 < fs.len(),
        0 <= ij.1 < fs[ij.0].blocks.len(),
        block_position(fs, ij.0, ij.1) == p,
        blocks_of(fs)[p] == fs[ij.0].blocks[ij.1],
    decreases fs.len(),
{
    let front = blocks_of(fs.drop_last());
    if p < front.len() {
        let ij = lemma_blocks_of_position(fs.drop_last(), p);
        assert(fs.drop_last().take(ij.0) =~= fs.take(ij.0));
        ij
    } else {
        let i = fs.len() - 1;
        assert(fs.take(i) =~= fs.drop_last());
        (i, p - front.len())
    }
}

} // verus!
