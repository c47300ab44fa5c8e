//! Remapping of module-local sancov indices to the global index space.

use vstd::prelude::*;
use crate::cfg::{BlockView, CfgView, ControlFlowGraph, FunctionView, NO_SANCOV_INDEX};

verus! {

/// The largest `i` with `starts[i] <= s`, if there is one.
pub open spec fn remap_slot(starts: Seq<u64>, s: u64) -> Option<int>
    decreases starts.len(),
{
    if starts.len() == 0 {
        None
    } else if starts.last() <= s {
        Some(starts.len() - 1)
    } else {
        remap_slot(starts.drop_last(), s)
    }
}

/// The global index of the local sancov index `s`: the offset of its slot
/// plus the distance of `s` from the start of the slot.
pub open spec fn remapped_index(starts: Seq<u64>, offsets: Seq<u64>, s: u32) -> int
    recommends
        remap_slot(starts, s as u64) is Some,
        starts.len() == offsets.len(),
{
    let i = remap_slot(starts, s as u64).unwrap();
    offsets[i] + (s - starts[i])
}

/// The sancov index `s` can be remapped: a slot starts at or below it and the
/// global index is a sancov index, below the mark of no instrumentation.
pub open spec fn remap_defined(starts: Seq<u64>, offsets: Seq<u64>, s: u32) -> bool {
    &&& remap_slot(starts, s as u64) is Some
    &&& remapped_index(starts, offsets, s) < NO_SANCOV_INDEX
}

/// The block after remapping: an instrumented block gets its global index,
/// any other block stays as it is.
pub open spec fn remap_block(b: BlockView, starts: Seq<u64>, offsets: Seq<u64>) -> BlockView {
    if b.instrumented() {
        BlockView { sancov_index: remapped_index(starts, offsets, b.sancov_index) as u32, ..b }
    } else {
        b
    }
}

/// The function after remapping each of its blocks.
pub open spec fn remap_function(f: FunctionView, starts: Seq<u64>, offsets: Seq<u64>) -> FunctionView {
    FunctionView { blocks: f.blocks.map_values(|b: BlockView| remap_block(b, starts, offsets)), ..f }
}

/// The graph after remapping each of its functions.
pub open spec fn remap_cfg(c: CfgView, starts: Seq<u64>, offsets: Seq<u64>) -> CfgView {
    CfgView { functions: c.functions.map_values(|f: FunctionView| remap_function(f, starts, offsets)) }
}

/// Every instrumented block of the graph can be remapped.
pub open spec fn remap_applies(c: CfgView, starts: Seq<u64>, offsets: Seq<u64>) -> bool {
    &&& starts.len() == offsets.len()
    &&& forall|i: int, j: int|
        0 <= i < c.functions.len() && 0 <= j < c.functions[i].blocks.len() && (
        #[trigger] c.functions[i].blocks[j]).instrumented() ==> remap_defined(
            starts,
            offsets,
            c.functions[i].blocks[j].sancov_index,
        )
}

/// A slot, where there is one, is a position of `starts`, holds a start at or
/// below `s`, and no later position does.
pub proof fn lemma_remap_slot(starts: Seq<u64>, s: u64)
    ensures
        match remap_slot(starts, s) {
            Some(i) => 0 <= i < starts.len() && starts[i] <= s && forall|k: int|
                i < k < starts.len() ==> starts[k] > s,
            None => forall|k: int| 0 <= k < starts.len() ==> starts[k] > s,
        },
    decreases starts.len(),
{
    if starts.len() > 0 && starts.last() > s {
        let front = starts.drop_last();
        lemma_remap_slot(front, s);
        match remap_slot(front, s) {
            Some(i) => {
                assert forall|k: int| i < k < starts.len() implies starts[k] > s by {
                    if k < front.len() {
                        assert(front[k] > s);
                    }
                }
            },
            None => {
                assert forall|k: int| 0 <= k < starts.len() implies starts[k] > s by {
                    if k < front.len() {
                        assert(front[k] > s);
                    }
                }
            },
        }
    }
}

/// Finds the slot of the sancov index `s`.
fn find_slot(starts: &[u64], s: u64) -> (r: Option<usize>)
    ensures
        r is Some <==> remap_slot(starts@, s) is Some,
        r is Some ==> r.unwrap() as int == remap_slot(starts@, s).unwrap(),
{
    let mut i: usize = starts.len();
    proof {
        assert(starts@.take(i as int) =~= starts@);
    }
    while i > 0
        invariant
            i <= starts.len(),
            remap_slot(starts@, s) == remap_slot(starts@.take(i as int), s),
        decreases i,
    {
        proof {
            assert(starts@.take(i as int).drop_last() =~= starts@.take(i - 1));
        }
        if starts[i - 1] <= s {
            return Some(i - 1);
        }
        i -= 1;
    }
    None
}

/// Says whether `remap_sancov_index` can be applied to the graph: the two
/// arrays have one length, and each instrumented block has a slot and a
/// global index below the mark of no instrumentation.
pub fn remap_is_defined(cfg: &ControlFlowGraph, remap_starts: &[u64], remap_offsets: &[u64]) -> (ok: bool)
    ensures
        ok == remap_applies(cfg@, remap_starts@, remap_offsets@),
{
    if remap_starts.len() != remap_offsets.len() {
        return false;
    }
    let ghost c = cfg@;
    let ghost starts = remap_starts@;
    let ghost offsets = remap_offsets@;
    let mut i: usize = 0;
    while i < cfg.functions.len()
        invariant
            i <= cfg.functions.len(),
            c == cfg@,
            starts == remap_starts@,
            offsets == remap_offsets@,
            starts.len() == offsets.len(),
            forall|a: int, b: int|
                0 <= a < i && 0 <= b < c.functions[a].blocks.len() && (
                #[trigger] c.functions[a].blocks[b]).instrumented() ==> remap_defined(
                    starts,
                    offsets,
                    c.functions[a].blocks[b].sancov_index,
                ),
        decreases cfg.functions.len() - i,
    {
        let function = &cfg.functions[i];
        let mut j: usize = 0;
        while j < function.basic_blocks.len()
            invariant
                i < cfg.functions.len(),
                j <= function.basic_blocks.len(),
                *function == cfg.functions@[i as int],
                c == cfg@,
                starts == remap_starts@,
                offsets == remap_offsets@,
                starts.len() == offsets.len(),
                forall|a: int, b: int|
                    0 <= a < i && 0 <= b < c.functions[a].blocks.len() && (
                    #[trigger] c.functions[a].blocks[b]).instrumented() ==> remap_defined(
                        starts,
                        offsets,
                        c.functions[a].blocks[b].sancov_index,
                    ),
                forall|b: int|
                    0 <= b < j && (#[trigger] c.functions[i as int].blocks[b]).instrumented()
                        ==> remap_defined(starts, offsets, c.functions[i as int].blocks[b].sancov_index),
            decreases function.basic_blocks.len() - j,
        {
            let sancov_index: u32 = function.basic_blocks[j].sancov_index;
            assert(c.functions[i as int].blocks[j as int] == function.basic_blocks@[j as int]@);
            if sancov_index != NO_SANCOV_INDEX {
                proof {
                    lemma_remap_slot(starts, sancov_index as u64);
                }
                match find_slot(remap_starts, sancov_index as u64) {
                    None => {
                        return false;
                    },
                    Some(slot) => {
                        let distance: u64 = sancov_index as u64 - remap_starts[slot];
                        if remap_offsets[slot] >= NO_SANCOV_INDEX as u64 - distance {
                            return false;
                        }
                    },
                }
            }
            j += 1;
        }
        i += 1;
    }
    true
}

/// Replaces the sancov index of each instrumented block by its global index:
/// with `i` the largest position such that `remap_starts[i]` is at or below
/// the index, the new index is `remap_offsets[i]` plus the distance of the
/// old one from `remap_starts[i]`. Blocks without instrumentation, and all
/// else in the graph, stay as they are.
pub fn remap_sancov_index(cfg: &mut ControlFlowGraph, remap_starts: &[u64], remap_offsets: &[u64])
    requires
        remap_applies(old(cfg)@, remap_starts@, remap_offsets@),
    ensures
        final(cfg)@ == remap_cfg(old(cfg)@, remap_starts@, remap_offsets@),
{
    let ghost c = cfg@;
    let ghost starts = remap_starts@;
    let ghost offsets = remap_offsets@;
    let function_count: usize = cfg.functions.len();
    let mut i: usize = 0;
    while i < function_count
        invariant
            i <= function_count,
            function_count == cfg.functions.len(),
            c.functions.len() == function_count,
            starts == remap_starts@,
            offsets == remap_offsets@,
            remap_applies(c, starts, offsets),
            forall|a: int| 0 <= a < i ==> (#[trigger] cfg.functions@[a])@ == remap_function(c.functions[a], starts, offsets),
            forall|a: int| i <= a < function_count ==> (#[trigger] cfg.functions@[a])@ == c.functions[a],
        decreases function_count - i,
    {
        let block_count: usize = cfg.functions[i].basic_blocks.len();
        let ghost f = c.functions[i as int];
        let mut j: usize = 0;
        while j < block_count
            invariant
                i < function_count,
                j <= block_count,
                function_count == cfg.functions.len(),
                c.functions.len() == function_count,
                f == c.functions[i as int],
                block_count == cfg.functions@[i as int].basic_blocks.len(),
                block_count == f.blocks.len(),
                starts == remap_starts@,
                offsets == remap_offsets@,
                remap_applies(c, starts, offsets),
                cfg.functions@[i as int].id == f.id,
                cfg.functions@[i as int].name@ == f.name,
                forall|a: int| 0 <= a < i ==> (#[trigger] cfg.functions@[a])@ == remap_function(c.functions[a], starts, offsets),
                forall|a: int| i < a < function_count ==> (#[trigger] cfg.functions@[a])@ == c.functions[a],
                forall|b: int|
                    0 <= b < j ==> (#[trigger] cfg.functions@[i as int].basic_blocks@[b])@ == remap_block(
                        f.blocks[b],
                        starts,
                        offsets,
                    ),
                forall|b: int|
                    j <= b < block_count ==> (#[trigger] cfg.functions@[i as int].basic_blocks@[b])@
                        == f.blocks[b],
            decreases block_count - j,
        {
            let sancov_index: u32 = cfg.functions[i].basic_blocks[j].sancov_index;
            assert(cfg.functions@[i as int].basic_blocks@[j as int]@ == f.blocks[j as int]);
            if sancov_index != NO_SANCOV_INDEX {
                proof {
                    lemma_remap_slot(starts, sancov_index as u64);
                    assert(f.blocks[j as int].instrumented());
                    assert(remap_defined(starts, offsets, sancov_index));
                }
                let slot: usize = find_slot(remap_starts, sancov_index as u64).unwrap();
                let global: u64 = remap_offsets[slot] + (sancov_index as u64 - remap_starts[slot]);
                cfg.functions[i].basic_blocks[j].sancov_index = global as u32;
            }
            j += 1;
        }
        proof {
            assert(cfg.functions@[i as int]@.blocks =~= remap_function(f, starts, offsets).blocks);
        }
        i += 1;
    }
    proof {
        assert(cfg@.functions =~= remap_cfg(c, starts, offsets).functions);
    }
}

} // verus!
