//! The fuzzer side: the graph that a fuzzing process sends when it starts,
//! and the priorities that it takes back.

use vstd::prelude::*;
use crate::cfg::{CfgView, ControlFlowGraph};
use crate::concat::{cfg_views, concat_control_flow_graph, concat_functions, ids_total};
use crate::remap::{remap_applies, remap_cfg, remap_is_defined, remap_sancov_index};

verus! {

/// One module of a fuzzed program: its control-flow graph with module-local
/// sancov indices, and the two arrays that map them to global ones.
#[allow(non_camel_case_types)]
#[derive(Debug)]
pub struct fuzzer_client_param_module {
    pub cfg: ControlFlowGraph,
    pub remap_starts: Vec<u64>,
    pub remap_offsets: Vec<u64>,
}

/// What a fuzzing process hands over when it starts: its modules.
#[allow(non_camel_case_types)]
#[derive(Debug)]
pub struct fuzzer_client_param {
    pub modules: Vec<fuzzer_client_param_module>,
}

/// The graph of a module with global sancov indices.
pub open spec fn remapped_module(m: fuzzer_client_param_module) -> CfgView {
    remap_cfg(m.cfg@, m.remap_starts@, m.remap_offsets@)
}

/// The graphs of the modules with global sancov indices.
pub open spec fn remapped_modules(modules: Seq<fuzzer_client_param_module>) -> Seq<CfgView> {
    modules.map_values(|m: fuzzer_client_param_module| remapped_module(m))
}

/// The sancov indices of every module can be remapped.
pub open spec fn modules_remappable(modules: Seq<fuzzer_client_param_module>) -> bool {
    forall|i: int|
        0 <= i < modules.len() ==> remap_applies(
            (#[trigger] modules[i]).cfg@,
            modules[i].remap_starts@,
            modules[i].remap_offsets@,
        )
}

/// Says whether the sancov indices of every module can be remapped.
pub fn can_remap_modules(param: &fuzzer_client_param) -> (ok: bool)
    ensures
        ok == modules_remappable(param.modules@),
{
    let mut i: usize = 0;
    while i < param.modules.len()
        invariant
            i <= param.modules.len(),
            forall|x: int|
                0 <= x < i ==> remap_applies(
                    (#[trigger] param.modules@[x]).cfg@,
                    param.modules@[x].remap_starts@,
                    param.modules@[x].remap_offsets@,
                ),
        decreases param.modules.len() - i,
    {
        let module = &param.modules[i];
        if !remap_is_defined(&module.cfg, module.remap_starts.as_slice(), module.remap_offsets.as_slice()) {
            return false;
        }
        i += 1;
    }
    true
}

/// Makes the one graph that a fuzzing process sends to the collector: the
/// sancov indices of every module are remapped to global ones, and the
/// graphs of the modules are joined with global block identifiers.
pub fn normalize_modules(param: fuzzer_client_param) -> (cfg: ControlFlowGraph)
    requires
        modules_remappable(param.modules@),
        ids_total(remapped_modules(param.modules@)) <= u64::MAX,
    ensures
        cfg@.functions == concat_functions(remapped_modules(param.modules@)),
{
    let ghost modules = param.modules@;
    let mut remaining: Vec<fuzzer_client_param_module> = param.modules;
    let mut reversed: Vec<ControlFlowGraph> = Vec::new();
    while remaining.len() > 0
        invariant
            remaining@.len() <= modules.len(),
            remaining@ == modules.take(remaining@.len() as int),
            modules_remappable(modules),
            reversed@.len() == modules.len() - remaining@.len(),
            forall|x: int|
                0 <= x < reversed@.len() ==> (#[trigger] reversed@[x])@ == remapped_module(modules[modules.len() - 1 - x]),
        decreases remaining@.len(),
    {
        let ghost at = remaining@.len() - 1;
        let module = remaining.pop().unwrap();
        proof {
            assert(module == modules[at]);
            assert(remaining@ =~= modules.take(at));
        }
        let mut cfg = module.cfg;
        remap_sancov_index(&mut cfg, module.remap_starts.as_slice(), module.remap_offsets.as_slice());
        reversed.push(cfg);
    }
    let mut cfgs: Vec<ControlFlowGraph> = Vec::new();
    while reversed.len() > 0
        invariant
            reversed@.len() + cfgs@.len() == modules.len(),
            forall|x: int|
                0 <= x < reversed@.len() ==> (#[trigger] reversed@[x])@ == remapped_module(modules[modules.len() - 1 - x]),
            forall|x: int| 0 <= x < cfgs@.len() ==> (#[trigger] cfgs@[x])@ == remapped_module(modules[x]),
        decreases reversed@.len(),
    {
        let cfg = reversed.pop().unwrap();
        cfgs.push(cfg);
    }
    proof {
        assert(cfg_views(cfgs@) =~= remapped_modules(modules));
    }
    concat_control_flow_graph(cfgs)
}

/// Hands the waiting priorities to a host that has room for `room` of them.
/// The first part of the result is the number of priorities that wait. Where
/// the host has room for them all, they are its second part, in order, and
/// none waits any longer; else none is handed over and all go on waiting.
pub fn get_corpus_priorities(queue: &mut Vec<(u64, u32)>, room: usize) -> (result: (usize, Vec<(u64, u32)>))
    ensures
        result.0 == old(queue)@.len(),
        old(queue)@.len() <= room ==> result.1@ == old(queue)@ && final(queue)@.len() == 0,
        old(queue)@.len() > room ==> result.1@.len() == 0 && final(queue)@ == old(queue)@,
{
    let needed: usize = queue.len();
    let mut handed: Vec<(u64, u32)> = Vec::new();
    if needed <= room {
        let mut i: usize = 0;
        while i < needed
            invariant
                i <= needed,
                needed == queue@.len(),
                handed@ == queue@.take(i as int),
            decreases needed - i,
        {
            handed.push(queue[i]);
            proof {
                assert(queue@.take(i + 1) =~= queue@.take(i as int).push(queue@[i as int]));
            }
            i += 1;
        }
        proof {
            assert(queue@.take(i as int) =~= queue@);
        }
        queue.clear();
    }
    (needed, handed)
}

} // verus!
