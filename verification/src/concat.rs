//! Concatenation of per-module control-flow graphs into one graph with
//! global block identifiers.

use vstd::prelude::*;
use std::collections::HashMap;
use crate::cfg::{BasicBlock, BlockView, CfgView, ControlFlowGraph, Function, FunctionView, blocks_of};
use crate::seqs::lemma_dedup_all;
use crate::seqs::{dedup_all, dedup_successors};

verus! {

broadcast use vstd::std_specs::hash::group_hash_axioms;

/// The identifiers that a block mentions, in the order in which the
/// numbering meets them: its own, then those of its successors.
pub open spec fn block_ids(b: BlockView) -> Seq<u64> {
    seq![b.id] + b.successors
}

/// The identifiers that the blocks `bs` mention, block after block.
pub open spec fn ids_of(bs: Seq<BlockView>) -> Seq<u64>
    decreases bs.len(),
{
    if bs.len() == 0 {
        Seq::empty()
    } else {
        ids_of(bs.drop_last()) + block_ids(bs.last())
    }
}

/// The number of different values in `ids`.
pub open spec fn distinct_count(ids: Seq<u64>) -> nat
    decreases ids.len(),
{
    if ids.len() == 0 {
        0
    } else if ids.drop_last().contains(ids.last()) {
        distinct_count(ids.drop_last())
    } else {
        distinct_count(ids.drop_last()) + 1
    }
}

/// The numbering of `ids` in first-seen order: the value that is the `n`-th
/// new one to appear in `ids` gets the number `base + n`, counting from 0.
pub open spec fn numbering(ids: Seq<u64>, base: u64) -> Map<u64, u64>
    decreases ids.len(),
{
    if ids.len() == 0 {
        Map::empty()
    } else {
        let front = ids.drop_last();
        let m = numbering(front, base);
        if m.contains_key(ids.last()) {
            m
        } else {
            m.insert(ids.last(), (base + distinct_count(front)) as u64)
        }
    }
}

/// The identifiers that one module mentions, in the order of its numbering.
pub open spec fn module_ids(c: CfgView) -> Seq<u64> {
    ids_of(c.blocks())
}

/// The number of global identifiers that the modules `cs` take together.
pub open spec fn ids_total(cs: Seq<CfgView>) -> nat
    decreases cs.len(),
{
    if cs.len() == 0 {
        0
    } else {
        ids_total(cs.drop_last()) + distinct_count(module_ids(cs.last()))
    }
}

/// The block with its identifier and successors replaced by their numbers
/// under `m`, each successor listed once, where it stood first.
pub open spec fn renumber_block(b: BlockView, m: Map<u64, u64>) -> BlockView {
    BlockView {
        id: m[b.id],
        successors: dedup_all(b.successors.map_values(|s: u64| m[s])),
        sancov_index: b.sancov_index,
    }
}

/// The function with the identifier `id` and each block renumbered under `m`.
pub open spec fn renumber_function(f: FunctionView, m: Map<u64, u64>, id: u64) -> FunctionView {
    FunctionView { id, name: f.name, blocks: f.blocks.map_values(|b: BlockView| renumber_block(b, m)) }
}

/// The functions of the modules `cs`, module after module. Each module's
/// blocks are numbered in first-seen order, starting where the modules before
/// it ended; each function's identifier is its position in the result.
pub open spec fn concat_functions(cs: Seq<CfgView>) -> Seq<FunctionView>
    decreases cs.len(),
{
    if cs.len() == 0 {
        Seq::empty()
    } else {
        let before = concat_functions(cs.drop_last());
        let fs = cs.last().functions;
        let m = numbering(module_ids(cs.last()), ids_total(cs.drop_last()) as u64);
        before + Seq::new(fs.len(), |i: int| renumber_function(fs[i], m, (before.len() + i) as u64))
    }
}

/// The mathematical values of a sequence of graphs.
pub open spec fn cfg_views(cfgs: Seq<ControlFlowGraph>) -> Seq<CfgView> {
    cfgs.map_values(|c: ControlFlowGraph| c@)
}

/// Every number that `m1` gives, `m2` gives too.
pub open spec fn numbers_kept(m1: Map<u64, u64>, m2: Map<u64, u64>) -> bool {
    forall|k: u64| #[trigger] m1.contains_key(k) ==> m2.contains_key(k) && m2[k] == m1[k]
}

/// The identifiers of two runs of blocks, one after the other.
pub proof fn lemma_ids_of_concat(a: Seq<BlockView>, b: Seq<BlockView>)
    ensures
        ids_of(a + b) == ids_of(a) + ids_of(b),
    decreases b.len(),
{
    if b.len() == 0 {
        assert(a + b =~= a);
        assert(ids_of(a) + ids_of(b) =~= ids_of(a));
    } else {
        lemma_ids_of_concat(a, b.drop_last());
        assert((a + b).drop_last() =~= a + b.drop_last());
        assert((ids_of(a) + ids_of(b.drop_last())) + block_ids(b.last()) =~= ids_of(a) + (ids_of(
            b.drop_last(),
        ) + block_ids(b.last())));
    }
}

/// A numbering gives a number to exactly the values that occur.
pub proof fn lemma_numbering_dom(ids: Seq<u64>, base: u64)
    ensures
        forall|x: u64| numbering(ids, base).contains_key(x) <==> ids.contains(x),
        numbering(ids, base).dom().finite(),
    decreases ids.len(),
{
    if ids.len() > 0 {
        let front = ids.drop_last();
        lemma_numbering_dom(front, base);
        assert forall|x: u64| numbering(ids, base).contains_key(x) <==> ids.contains(x) by {
            if ids.contains(x) {
                let i = choose|i: int| 0 <= i < ids.len() && ids[i] == x;
                if i < front.len() {
                    assert(front[i] == x);
                }
            }
            if front.contains(x) {
                let i = choose|i: int| 0 <= i < front.len() && front[i] == x;
                assert(ids[i] == x);
            }
            assert(ids[ids.len() - 1] == ids.last());
        }
    }
}

/// A numbering keeps the numbers it has given when more values follow.
pub proof fn lemma_numbering_extends(a: Seq<u64>, b: Seq<u64>, base: u64)
    ensures
        numbers_kept(numbering(a, base), numbering(a + b, base)),
    decreases b.len(),
{
    let m1 = numbering(a, base);
    let m2 = numbering(a + b, base);
    if b.len() == 0 {
        assert(a + b =~= a);
    } else {
        let mid = numbering(a + b.drop_last(), base);
        lemma_numbering_extends(a, b.drop_last(), base);
        assert((a + b).drop_last() =~= a + b.drop_last());
        assert forall|k: u64| #[trigger] m1.contains_key(k) implies m2.contains_key(k) && m2[k] == m1[k] by {
            assert(mid.contains_key(k));
        }
    }
}

/// More values never make fewer different ones.
pub proof fn lemma_distinct_count_prefix(a: Seq<u64>, b: Seq<u64>)
    ensures
        distinct_count(a) <= distinct_count(a + b),
    decreases b.len(),
{
    if b.len() == 0 {
        assert(a + b =~= a);
    } else {
        lemma_distinct_count_prefix(a, b.drop_last());
        assert((a + b).drop_last() =~= a + b.drop_last());
    }
}

/// Renumbering a block depends only on the numbers of the identifiers that
/// the block mentions.
pub proof fn lemma_renumber_block_stable(b: BlockView, m1: Map<u64, u64>, m2: Map<u64, u64>)
    requires
        numbers_kept(m1, m2),
        forall|x: u64| block_ids(b).contains(x) ==> m1.contains_key(x),
    ensures
        renumber_block(b, m1) == renumber_block(b, m2),
{
    assert(block_ids(b)[0] == b.id);
    assert(block_ids(b).contains(b.id));
    assert forall|k: int| 0 <= k < b.successors.len() implies m1[b.successors[k]] == m2[b.successors[k]] by {
        assert(block_ids(b)[k + 1] == b.successors[k]);
        assert(block_ids(b).contains(b.successors[k]));
        assert(m1.contains_key(b.successors[k]));
    }
    assert(m1.contains_key(b.id));
    assert(b.successors.map_values(|s: u64| m1[s]) =~= b.successors.map_values(|s: u64| m2[s]));
}

/// Every identifier of a block of `bs` occurs among the identifiers of `bs`.
pub proof fn lemma_ids_of_contains(bs: Seq<BlockView>, j: int, x: u64)
    requires
        0 <= j < bs.len(),
        block_ids(bs[j]).contains(x),
    ensures
        ids_of(bs).contains(x),
    decreases bs.len(),
{
    let front = ids_of(bs.drop_last());
    let tail = block_ids(bs.last());
    if j == bs.len() - 1 {
        let i = choose|i: int| 0 <= i < tail.len() && tail[i] == x;
        assert((front + tail)[front.len() + i] == x);
    } else {
        lemma_ids_of_contains(bs.drop_last(), j, x);
        let i = choose|i: int| 0 <= i < front.len() && front[i] == x;
        assert((front + tail)[i] == x);
    }
}

/// Renumbering a function depends only on the numbers of the identifiers
/// that its blocks mention.
pub proof fn lemma_renumber_function_stable(f: FunctionView, m1: Map<u64, u64>, m2: Map<u64, u64>, id: u64)
    requires
        numbers_kept(m1, m2),
        forall|x: u64| ids_of(f.blocks).contains(x) ==> m1.contains_key(x),
    ensures
        renumber_function(f, m1, id) == renumber_function(f, m2, id),
{
    assert forall|j: int| 0 <= j < f.blocks.len() implies renumber_block(f.blocks[j], m1) == renumber_block(
        f.blocks[j],
        m2,
    ) by {
        assert forall|x: u64| block_ids(f.blocks[j]).contains(x) implies m1.contains_key(x) by {
            lemma_ids_of_contains(f.blocks, j, x);
        }
        lemma_renumber_block_stable(f.blocks[j], m1, m2);
    }
    assert(f.blocks.map_values(|b: BlockView| renumber_block(b, m1)) =~= f.blocks.map_values(
        |b: BlockView| renumber_block(b, m2),
    ));
}

/// Gives `id` its number, a new one if `id` has not been seen.
fn number_id(
    id_map: &mut HashMap<u64, u64>,
    next: &mut u64,
    id: u64,
    Ghost(seen): Ghost<Seq<u64>>,
    Ghost(base): Ghost<u64>,
) -> (r: u64)
    requires
        old(id_map)@ == numbering(seen, base),
        *old(next) == base + distinct_count(seen),
        base + distinct_count(seen.push(id)) <= u64::MAX,
    ensures
        final(id_map)@ == numbering(seen.push(id), base),
        *final(next) == base + distinct_count(seen.push(id)),
        final(id_map)@.contains_key(id),
        r == final(id_map)@[id],
{
    proof {
        lemma_numbering_dom(seen, base);
        assert(seen.push(id).drop_last() =~= seen);
    }
    let found: Option<u64> = match id_map.get(&id) {
        Some(mapped) => Some(*mapped),
        None => None,
    };
    match found {
        Some(mapped) => mapped,
        None => {
            let mapped: u64 = *next;
            id_map.insert(id, mapped);
            *next = mapped + 1;
            mapped
        },
    }
}

/// Renumbers one block, numbering the identifiers it mentions.
fn renumber_one_block(
    block: &BasicBlock,
    id_map: &mut HashMap<u64, u64>,
    next: &mut u64,
    Ghost(seen): Ghost<Seq<u64>>,
    Ghost(base): Ghost<u64>,
) -> (r: BasicBlock)
    requires
        old(id_map)@ == numbering(seen, base),
        *old(next) == base + distinct_count(seen),
        base + distinct_count(seen + block_ids(block@)) <= u64::MAX,
    ensures
        final(id_map)@ == numbering(seen + block_ids(block@), base),
        *final(next) == base + distinct_count(seen + block_ids(block@)),
        r@ == renumber_block(block@, final(id_map)@),
{
    let ghost b = block@;
    let ghost all = seen + block_ids(b);
    proof {
        assert(seen.push(b.id) + b.successors =~= all);
        lemma_distinct_count_prefix(seen.push(b.id), b.successors);
    }
    let id: u64 = number_id(id_map, next, block.id, Ghost(seen), Ghost(base));
    let mut successors: Vec<u64> = Vec::new();
    let mut l: usize = 0;
    proof {
        assert(seen.push(b.id) + b.successors.take(0) =~= seen.push(b.id));
    }
    while l < block.successors.len()
        invariant
            l <= block.successors.len(),
            b == block@,
            all == seen + block_ids(b),
            id_map@ == numbering(seen.push(b.id) + b.successors.take(l as int), base),
            *next == base + distinct_count(seen.push(b.id) + b.successors.take(l as int)),
            base + distinct_count(all) <= u64::MAX,
            successors@.len() == l,
            forall|x: int|
                0 <= x < l ==> id_map@.contains_key(#[trigger] b.successors[x]) && successors@[x]
                    == id_map@[b.successors[x]],
            id_map@.contains_key(b.id),
            id_map@[b.id] == id,
        decreases block.successors.len() - l,
    {
        let ghost cur = seen.push(b.id) + b.successors.take(l as int);
        let s: u64 = block.successors[l];
        proof {
            assert(cur.push(s) =~= seen.push(b.id) + b.successors.take(l + 1));
            assert(cur.push(s) + b.successors.skip(l + 1) =~= all);
            lemma_distinct_count_prefix(cur.push(s), b.successors.skip(l + 1));
            lemma_numbering_extends(cur, seq![s], base);
            assert(cur + seq![s] =~= cur.push(s));
        }
        let mapped: u64 = number_id(id_map, next, s, Ghost(cur), Ghost(base));
        successors.push(mapped);
        l += 1;
    }
    proof {
        assert(b.successors.take(l as int) =~= b.successors);
        assert(successors@ =~= b.successors.map_values(|s: u64| id_map@[s]));
    }
    dedup_successors(&mut successors);
    BasicBlock { id, successors, sancov_index: block.sancov_index }
}

/// Renumbers the blocks of one function and gives it the identifier `id`.
fn renumber_one_function(
    function: &Function,
    id_map: &mut HashMap<u64, u64>,
    next: &mut u64,
    id: u64,
    Ghost(seen): Ghost<Seq<u64>>,
    Ghost(base): Ghost<u64>,
) -> (r: Function)
    requires
        old(id_map)@ == numbering(seen, base),
        *old(next) == base + distinct_count(seen),
        base + distinct_count(seen + ids_of(function@.blocks)) <= u64::MAX,
    ensures
        final(id_map)@ == numbering(seen + ids_of(function@.blocks), base),
        *final(next) == base + distinct_count(seen + ids_of(function@.blocks)),
        r@ == renumber_function(function@, final(id_map)@, id),
{
    let ghost f = function@;
    let ghost all = seen + ids_of(f.blocks);
    let mut blocks: Vec<BasicBlock> = Vec::new();
    let mut j: usize = 0;
    proof {
        assert(f.blocks.take(0) =~= Seq::<BlockView>::empty());
        assert(seen + ids_of(f.blocks.take(0)) =~= seen);
    }
    while j < function.basic_blocks.len()
        invariant
            j <= function.basic_blocks.len(),
            f == function@,
            all == seen + ids_of(f.blocks),
            id_map@ == numbering(seen + ids_of(f.blocks.take(j as int)), base),
            *next == base + distinct_count(seen + ids_of(f.blocks.take(j as int))),
            base + distinct_count(all) <= u64::MAX,
            blocks@.len() == j,
            forall|x: int| 0 <= x < j ==> (#[trigger] blocks@[x])@ == renumber_block(f.blocks[x], id_map@),
        decreases function.basic_blocks.len() - j,
    {
        let ghost cur = seen + ids_of(f.blocks.take(j as int));
        let ghost old_map = id_map@;
        let block = &function.basic_blocks[j];
        proof {
            let bj = f.blocks[j as int];
            assert(block@ == bj);
            assert(f.blocks.take(j + 1).drop_last() =~= f.blocks.take(j as int));
            assert(cur + block_ids(bj) =~= seen + ids_of(f.blocks.take(j + 1)));
            assert(f.blocks =~= f.blocks.take(j + 1) + f.blocks.skip(j + 1));
            lemma_ids_of_concat(f.blocks.take(j + 1), f.blocks.skip(j + 1));
            assert((cur + block_ids(bj)) + ids_of(f.blocks.skip(j + 1)) =~= all);
            lemma_distinct_count_prefix(cur + block_ids(bj), ids_of(f.blocks.skip(j + 1)));
            lemma_numbering_extends(cur, block_ids(bj), base);
            lemma_numbering_dom(cur, base);
        }
        let renumbered = renumber_one_block(block, id_map, next, Ghost(cur), Ghost(base));
        proof {
            assert forall|x: int| 0 <= x < j implies (#[trigger] blocks@[x])@ == renumber_block(
                f.blocks[x],
                id_map@,
            ) by {
                assert forall|y: u64| block_ids(f.blocks[x]).contains(y) implies old_map.contains_key(y) by {
                    assert(f.blocks.take(j as int)[x] == f.blocks[x]);
                    lemma_ids_of_contains(f.blocks.take(j as int), x, y);
                    let tail = ids_of(f.blocks.take(j as int));
                    let i = choose|i: int| 0 <= i < tail.len() && tail[i] == y;
                    assert(cur[seen.len() + i] == y);
                    assert(cur.contains(y));
                }
                lemma_renumber_block_stable(f.blocks[x], old_map, id_map@);
            }
        }
        blocks.push(renumbered);
        j += 1;
    }
    proof {
        assert(f.blocks.take(j as int) =~= f.blocks);
        assert(blocks@.map_values(|b: BasicBlock| b@) =~= f.blocks.map_values(
            |b: BlockView| renumber_block(b, id_map@),
        ));
    }
    Function { id, name: function.name.clone(), basic_blocks: blocks }
}

/// Joins the graphs of several modules into one. The functions follow each
/// other module after module and are numbered by position. Within a module
/// each block identifier, met as a block's own or as a successor, gets the
/// next unused global number the first time it is met, so that the numbers of
/// two modules never meet. A successor that a block lists again is dropped;
/// names and sancov indices are kept.
pub fn concat_control_flow_graph(cfgs: Vec<ControlFlowGraph>) -> (r: ControlFlowGraph)
    requires
        ids_total(cfg_views(cfgs@)) <= u64::MAX,
    ensures
        r@.functions == concat_functions(cfg_views(cfgs@)),
{
    let ghost cs = cfg_views(cfgs@);
    let mut new_functions: Vec<Function> = Vec::new();
    let mut next_block_id: u64 = 0;
    let mut k: usize = 0;
    proof {
        assert(cs.take(0) =~= Seq::<CfgView>::empty());
    }
    while k < cfgs.len()
        invariant
            k <= cfgs.len(),
            cs == cfg_views(cfgs@),
            ids_total(cs) <= u64::MAX,
            next_block_id == ids_total(cs.take(k as int)),
            new_functions@.map_values(|f: Function| f@) == concat_functions(cs.take(k as int)),
        decreases cfgs.len() - k,
    {
        let cfg = &cfgs[k];
        let ghost c = cs[k as int];
        let ghost fs = c.functions;
        let ghost base = next_block_id;
        let ghost before = concat_functions(cs.take(k as int));
        let ghost stream = module_ids(c);
        proof {
            assert(c == cfg@);
            assert(cs.take(k + 1).drop_last() =~= cs.take(k as int));
            assert(cs =~= cs.take(k + 1) + cs.skip(k + 1));
            lemma_ids_total_prefix(cs.take(k + 1), cs.skip(k + 1));
            assert(fs.take(0) =~= Seq::<FunctionView>::empty());
        }
        let mut id_map: HashMap<u64, u64> = HashMap::new();
        let mut i: usize = 0;
        while i < cfg.functions.len()
            invariant
                i <= cfg.functions.len(),
                c == cfg@,
                fs == c.functions,
                stream == module_ids(c),
                base + distinct_count(stream) <= u64::MAX,
                id_map@ == numbering(ids_of(blocks_of(fs.take(i as int))), base),
                next_block_id == base + distinct_count(ids_of(blocks_of(fs.take(i as int)))),
                before.len() + i == new_functions@.len(),
                forall|x: int| 0 <= x < before.len() ==> (#[trigger] new_functions@[x])@ == before[x],
                forall|x: int|
                    0 <= x < i ==> (#[trigger] new_functions@[before.len() + x])@ == renumber_function(
                        fs[x],
                        id_map@,
                        (before.len() + x) as u64,
                    ),
            decreases cfg.functions.len() - i,
        {
            let function = &cfg.functions[i];
            let ghost cur = ids_of(blocks_of(fs.take(i as int)));
            let ghost old_map = id_map@;
            proof {
                assert(function@ == fs[i as int]);
                lemma_stream_split(fs, i as int);
                lemma_distinct_count_prefix(
                    cur + ids_of(fs[i as int].blocks),
                    ids_of(blocks_of(fs.skip(i + 1))),
                );
                lemma_numbering_extends(cur, ids_of(fs[i as int].blocks), base);
                lemma_numbering_dom(cur, base);
            }
            let id: u64 = new_functions.len() as u64;
            let renumbered = renumber_one_function(
                function,
                &mut id_map,
                &mut next_block_id,
                id,
                Ghost(cur),
                Ghost(base),
            );
            proof {
                assert forall|x: int| 0 <= x < i implies (#[trigger] new_functions@[before.len() + x])@
                    == renumber_function(fs[x], id_map@, (before.len() + x) as u64) by {
                    assert forall|y: u64| ids_of(fs[x].blocks).contains(y) implies old_map.contains_key(y) by {
                        lemma_stream_split(fs, x);
                        let part = ids_of(fs[x].blocks);
                        let p = choose|p: int| 0 <= p < part.len() && part[p] == y;
                        let head = ids_of(blocks_of(fs.take(x)));
                        assert((head + part)[head.len() + p] == y);
                        assert(ids_of(blocks_of(fs.take(x + 1))).contains(y));
                        lemma_stream_grows(fs, x + 1, i as int);
                        let mid = ids_of(blocks_of(fs.take(x + 1)));
                        let q = choose|q: int| 0 <= q < mid.len() && mid[q] == y;
                        assert(cur[q] == y);
                        assert(cur.contains(y));
                    }
                    lemma_renumber_function_stable(fs[x], old_map, id_map@, (before.len() + x) as u64);
                }
            }
            new_functions.push(renumbered);
            i += 1;
        }
        proof {
            assert(fs.take(i as int) =~= fs);
            let whole = concat_functions(cs.take(k + 1));
            assert(new_functions@.map_values(|f: Function| f@) =~= whole);
        }
        k += 1;
    }
    proof {
        assert(cs.take(k as int) =~= cs);
        assert(ControlFlowGraph { functions: new_functions }@.functions =~= new_functions@.map_values(
            |f: Function| f@,
        ));
    }
    ControlFlowGraph { functions: new_functions }
}

/// More modules never take fewer identifiers.
pub proof fn lemma_ids_total_prefix(a: Seq<CfgView>, b: Seq<CfgView>)
    ensures
        ids_total(a) <= ids_total(a + b),
    decreases b.len(),
{
    if b.len() == 0 {
        assert(a + b =~= a);
    } else {
        lemma_ids_total_prefix(a, b.drop_last());
        assert((a + b).drop_last() =~= a + b.drop_last());
    }
}

/// The identifiers of a module fall into those of the functions before the
/// `i`-th, those of the `i`-th, and those of the functions after it.
pub proof fn lemma_stream_split(fs: Seq<FunctionView>, i: int)
    requires
        0 <= i < fs.len(),
    ensures
        ids_of(blocks_of(fs.take(i + 1))) == ids_of(blocks_of(fs.take(i))) + ids_of(fs[i].blocks),
        ids_of(blocks_of(fs)) == ids_of(blocks_of(fs.take(i + 1))) + ids_of(blocks_of(fs.skip(i + 1))),
{
    assert(fs.take(i + 1).drop_last() =~= fs.take(i));
    lemma_ids_of_concat(blocks_of(fs.take(i)), fs[i].blocks);
    lemma_blocks_of_concat(fs.take(i + 1), fs.skip(i + 1));
    assert(fs.take(i + 1) + fs.skip(i + 1) =~= fs);
    lemma_ids_of_concat(blocks_of(fs.take(i + 1)), blocks_of(fs.skip(i + 1)));
}

/// The identifiers of the first `i` functions begin those of the first `j`.
pub proof fn lemma_stream_grows(fs: Seq<FunctionView>, i: int, j: int)
    requires
        0 <= i <= j <= fs.len(),
    ensures
        ids_of(blocks_of(fs.take(i))).len() <= ids_of(blocks_of(fs.take(j))).len(),
        forall|q: int|
            0 <= q < ids_of(blocks_of(fs.take(i))).len() ==> ids_of(blocks_of(fs.take(j)))[q] == ids_of(
                blocks_of(fs.take(i)),
            )[q],
    decreases j - i,
{
    if i < j {
        lemma_stream_grows(fs, i, j - 1);
        lemma_stream_split(fs, j - 1);
    }
}

/// The blocks of two runs of functions, one after the other.
pub proof fn lemma_blocks_of_concat(a: Seq<FunctionView>, b: Seq<FunctionView>)
    ensures
        blocks_of(a + b) == blocks_of(a) + blocks_of(b),
    decreases b.len(),
{
    if b.len() == 0 {
        assert(a + b =~= a);
        assert(blocks_of(a) + blocks_of(b) =~= blocks_of(a));
    } else {
        lemma_blocks_of_concat(a, b.drop_last());
        assert((a + b).drop_last() =~= a + b.drop_last());
        assert((blocks_of(a) + blocks_of(b.drop_last())) + b.last().blocks =~= blocks_of(a) + (blocks_of(
            b.drop_last(),
        ) + b.last().blocks));
    }
}

/// Within the module the block identifiers differ from each other, and
/// every successor is the identifier of a block of the module.
pub open spec fn is_closed(c: CfgView) -> bool {
    let bs = c.blocks();
    &&& forall|i: int, j: int| 0 <= i < j < bs.len() ==> (#[trigger] bs[i]).id != (#[trigger] bs[j]).id
    &&& forall|i: int, k: int|
        0 <= i < bs.len() && 0 <= k < bs[i].successors.len() ==> exists|j: int|
            0 <= j < bs.len() && (#[trigger] bs[j]).id == #[trigger] bs[i].successors[k]
}

/// The different values of a sequence are as many as its set has elements.
pub proof fn lemma_distinct_count_is_set_len(ids: Seq<u64>)
    ensures
        distinct_count(ids) == ids.to_set().len(),
        ids.to_set().finite(),
    decreases ids.len(),
{
    broadcast use vstd::set::group_set_axioms;

    vstd::seq_lib::seq_to_set_is_finite(ids);
    if ids.len() == 0 {
        assert(ids.to_set() =~= Set::<u64>::empty());
    } else {
        let front = ids.drop_last();
        lemma_distinct_count_is_set_len(front);
        front.lemma_push_to_set_commute(ids.last());
        assert(front.push(ids.last()) =~= ids);
        vstd::set::axiom_set_insert_len(front.to_set(), ids.last());
    }
}

/// Every identifier among those of `bs` is mentioned by one of the blocks.
pub proof fn lemma_ids_of_origin(bs: Seq<BlockView>, x: u64) -> (j: int)
    requires
        ids_of(bs).contains(x),
    ensures
        0 <= j < bs.len(),
        block_ids(bs[j]).contains(x),
    decreases bs.len(),
{
    let s = ids_of(bs);
    let i = choose|i: int| 0 <= i < s.len() && s[i] == x;
    let front = ids_of(bs.drop_last());
    if i < front.len() {
        assert(front[i] == x);
        lemma_ids_of_origin(bs.drop_last(), x)
    } else {
        assert(block_ids(bs.last())[i - front.len()] == x);
        bs.len() - 1
    }
}

/// A closed module takes as many identifiers as it has blocks.
pub proof fn lemma_closed_module_count(c: CfgView)
    requires
        is_closed(c),
    ensures
        distinct_count(module_ids(c)) == c.blocks().len(),
{
    let bs = c.blocks();
    let stream = module_ids(c);
    let own = bs.map_values(|b: BlockView| b.id);
    assert(own.no_duplicates());
    own.unique_seq_to_set();
    lemma_distinct_count_is_set_len(stream);
    assert forall|x: u64| stream.to_set().contains(x) <==> own.to_set().contains(x) by {
        if stream.contains(x) {
            let j = lemma_ids_of_origin(bs, x);
            let ids = block_ids(bs[j]);
            let p = choose|p: int| 0 <= p < ids.len() && ids[p] == x;
            if p == 0 {
                assert(own[j] == x);
            } else {
                assert(bs[j].successors[p - 1] == x);
                let t = choose|t: int| 0 <= t < bs.len() && (#[trigger] bs[t]).id == bs[j].successors[p - 1];
                assert(own[t] == x);
            }
        }
        if own.contains(x) {
            let j = choose|j: int| 0 <= j < own.len() && own[j] == x;
            assert(block_ids(bs[j])[0] == x);
            lemma_ids_of_contains(bs, j, x);
        }
    }
    assert(stream.to_set() =~= own.to_set());
}

/// A numbering gives different values different numbers, all of them from
/// `base` on and below `base` plus the number of different values.
pub proof fn lemma_numbering_range(ids: Seq<u64>, base: u64)
    requires
        base + distinct_count(ids) <= u64::MAX,
    ensures
        forall|x: u64| #[trigger]
            numbering(ids, base).contains_key(x) ==> base <= numbering(ids, base)[x] < base + distinct_count(
                ids,
            ),
        forall|x: u64, y: u64|
            #[trigger] numbering(ids, base).contains_key(x) && #[trigger] numbering(ids, base).contains_key(y)
                && x != y ==> numbering(ids, base)[x] != numbering(ids, base)[y],
    decreases ids.len(),
{
    if ids.len() > 0 {
        let front = ids.drop_last();
        lemma_numbering_range(front, base);
        lemma_numbering_dom(front, base);
        let m0 = numbering(front, base);
        let m = numbering(ids, base);
        assert forall|x: u64| #[trigger] m.contains_key(x) implies base <= m[x] < base + distinct_count(ids) by {
            if m0.contains_key(x) {
                assert(m[x] == m0[x]);
            }
        }
        assert forall|x: u64, y: u64| #[trigger]
            m.contains_key(x) && #[trigger] m.contains_key(y) && x != y implies m[x] != m[y] by {
            if m0.contains_key(x) {
                assert(m[x] == m0[x]);
            }
            if m0.contains_key(y) {
                assert(m[y] == m0[y]);
            }
        }
    }
}

/// The blocks of renumbered functions are the renumbered blocks.
pub proof fn lemma_renumbered_blocks(fs: Seq<FunctionView>, m: Map<u64, u64>, first: nat)
    ensures
        blocks_of(Seq::new(fs.len(), |i: int| renumber_function(fs[i], m, (first + i) as u64)))
            == blocks_of(fs).map_values(|b: BlockView| renumber_block(b, m)),
    decreases fs.len(),
{
    let out = Seq::new(fs.len(), |i: int| renumber_function(fs[i], m, (first + i) as u64));
    if fs.len() == 0 {
        assert(blocks_of(fs).map_values(|b: BlockView| renumber_block(b, m)) =~= Seq::<BlockView>::empty());
    } else {
        let front = fs.drop_last();
        lemma_renumbered_blocks(front, m, first);
        assert(out.drop_last() =~= Seq::new(
            front.len(),
            |i: int| renumber_function(front[i], m, (first + i) as u64),
        ));
        assert(blocks_of(out) =~= blocks_of(fs).map_values(|b: BlockView| renumber_block(b, m)));
    }
}

/// Where each module is closed, the joined graph is in normal form: its
/// block identifiers are exactly `0 .. N` for its `N` blocks, and every
/// successor is one of them.
pub proof fn lemma_concat_is_normalized(cs: Seq<CfgView>)
    requires
        forall|k: int| 0 <= k < cs.len() ==> is_closed(#[trigger] cs[k]),
        ids_total(cs) <= u64::MAX,
    ensures
        (CfgView { functions: concat_functions(cs) }).is_normalized(),
        blocks_of(concat_functions(cs)).len() == ids_total(cs),
    decreases cs.len(),
{
    if cs.len() > 0 {
        let front = cs.drop_last();
        let c = cs.last();
        assert forall|k: int| 0 <= k < front.len() implies is_closed(#[trigger] front[k]) by {
            assert(front[k] == cs[k]);
        }
        lemma_concat_is_normalized(front);
        lemma_closed_module_count(c);
        let before = concat_functions(front);
        let n0 = ids_total(front);
        let base = n0 as u64;
        let fs = c.functions;
        let stream = module_ids(c);
        let m = numbering(stream, base);
        let added = Seq::new(fs.len(), |i: int| renumber_function(fs[i], m, (before.len() + i) as u64));
        let src = blocks_of(fs);
        let new_blocks = src.map_values(|b: BlockView| renumber_block(b, m));
        let old_blocks = blocks_of(before);
        lemma_blocks_of_concat(before, added);
        lemma_renumbered_blocks(fs, m, before.len());
        let all = blocks_of(concat_functions(cs));
        assert(all == old_blocks + new_blocks);
        let n = all.len();
        assert(n == ids_total(cs));
        lemma_numbering_range(stream, base);
        lemma_numbering_dom(stream, base);
        assert forall|i: int| 0 <= i < src.len() implies m.contains_key(#[trigger] src[i].id) by {
            assert(block_ids(src[i])[0] == src[i].id);
            lemma_ids_of_contains(src, i, src[i].id);
        }
        assert forall|i: int| 0 <= i < n implies (#[trigger] all[i]).id < n by {
            if i >= old_blocks.len() {
                assert(all[i] == renumber_block(src[i - old_blocks.len()], m));
                assert(m.contains_key(src[i - old_blocks.len()].id));
            } else {
                assert(all[i] == old_blocks[i]);
            }
        }
        assert forall|i: int, j: int| 0 <= i < j < n implies (#[trigger] all[i]).id != (#[trigger] all[j]).id by {
            if j >= old_blocks.len() {
                let bj = src[j - old_blocks.len()];
                assert(all[j] == renumber_block(bj, m));
                assert(m.contains_key(bj.id));
                if i >= old_blocks.len() {
                    let bi = src[i - old_blocks.len()];
                    assert(all[i] == renumber_block(bi, m));
                    assert(m.contains_key(bi.id));
                    assert(bi.id != bj.id);
                } else {
                    assert(all[i] == old_blocks[i]);
                }
            } else {
                assert(all[i] == old_blocks[i]);
                assert(all[j] == old_blocks[j]);
            }
        }
        assert forall|i: int, k: int| 0 <= i < n && 0 <= k < all[i].successors.len() implies #[trigger] (
        #[trigger] all[i]).successors[k] < n by {
            if i >= old_blocks.len() {
                let b = src[i - old_blocks.len()];
                assert(all[i] == renumber_block(b, m));
                let mapped = b.successors.map_values(|s: u64| m[s]);
                let x = all[i].successors[k];
                assert(dedup_all(mapped).contains(x));
                lemma_dedup_all(mapped);
                assert(mapped.contains(x));
                let t = choose|t: int| 0 <= t < mapped.len() && mapped[t] == x;
                assert(block_ids(b)[t + 1] == b.successors[t]);
                lemma_ids_of_contains(src, i - old_blocks.len(), b.successors[t]);
                assert(m.contains_key(b.successors[t]));
            } else {
                assert(all[i] == old_blocks[i]);
            }
        }
    }
}

} // verus!
