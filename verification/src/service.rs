//! The collector service: the engines of all connected fuzzers, by fuzzer
//! id, and the observer that is told of them.

use vstd::prelude::*;
use std::collections::HashMap;
use crate::cfg::{CfgView, ControlFlowGraph, NO_CORPUS_ID};
use crate::fuzzer::{Fuzzer, FuzzerView, propagated, reports, sancov_by_node};
use crate::observer::Observer;
use crate::structure::{GraphView, build_structure_graph, is_normalized, is_structure_of};
use crate::walk::edge_table;

verus! {

broadcast use vstd::std_specs::hash::group_hash_axioms;

/// Why the service refuses a request.
#[derive(Debug, PartialEq, Eq, Clone, Copy)]
pub enum ServiceError {
    /// No fuzzer has the id that the request names.
    UnknownFuzzer,
    /// The control-flow graph of the request is not in normal form.
    MalformedGraph,
}

/// The collector service.
pub struct CollectorServiceImpl<O: Observer> {
    fuzzer_map: HashMap<u64, Fuzzer>,
    observer: O,
}

/// Mathematical value of a [`CollectorServiceImpl`]: the engines of its
/// fuzzers, each at the index that is the fuzzer's id, and its observer.
pub struct ServiceView<O> {
    pub fuzzers: Seq<FuzzerView>,
    pub observer: O,
}

/// `f` is the engine of a new fuzzer for the normalized graph `c`: all its
/// bit-counters are zero, it knows the sancov indices of the instrumented
/// blocks, and its table is that of the structure graph of `c`.
pub open spec fn is_new_engine(f: FuzzerView, c: CfgView) -> bool {
    &&& f.bit_counters == Seq::new(c.blocks().len(), |i: int| 0u8)
    &&& f.known == sancov_by_node(c.blocks()).values()
    &&& exists|g: GraphView| #[trigger]
        is_structure_of(g, c) && f.edges == edge_table(g.successor_lists(), sancov_by_node(c.blocks()))
}

/// The corpus input that a request names, if it names one.
pub open spec fn corpus_of(corpus_id: u64) -> Option<u64> {
    if corpus_id == NO_CORPUS_ID {
        None
    } else {
        Some(corpus_id)
    }
}

/// The corpus input that a request names, if it names one.
pub fn corpus_id_option(corpus_id: u64) -> (corpus: Option<u64>)
    ensures
        corpus == corpus_of(corpus_id),
{
    if corpus_id == NO_CORPUS_ID {
        None
    } else {
        Some(corpus_id)
    }
}

impl<O: Observer> View for CollectorServiceImpl<O> {
    type V = ServiceView<O>;

    closed spec fn view(&self) -> ServiceView<O> {
        ServiceView {
            fuzzers: Seq::new(self.fuzzer_map@.len(), |i: int| self.fuzzer_map@[i as u64]@),
            observer: self.observer,
        }
    }
}

impl<O: Observer> CollectorServiceImpl<O> {
    /// The service is well formed: the ids of its fuzzers are the numbers
    /// below their count, every engine is well formed, and the observer
    /// keeps its word.
    pub closed spec fn wf(&self) -> bool {
        &&& self.observer.inv()
        &&& self.fuzzer_map@.len() <= u64::MAX
        &&& forall|id: u64| #[trigger] self.fuzzer_map@.contains_key(id) <==> id < self.fuzzer_map@.len()
        &&& forall|id: u64| #[trigger] self.fuzzer_map@.contains_key(id) ==> self.fuzzer_map@[id].wf()
    }

    /// A service without fuzzers.
    pub fn new(observer: O) -> (service: Self)
        requires
            observer.inv(),
        ensures
            service.wf(),
            service@.fuzzers.len() == 0,
            service@.observer == observer,
    {
        CollectorServiceImpl { fuzzer_map: HashMap::new(), observer }
    }

    /// The number of fuzzers.
    pub fn fuzzer_count(&self) -> (count: usize)
        requires
            self.wf(),
        ensures
            count == self@.fuzzers.len(),
    {
        self.fuzzer_map.len()
    }

    /// The observer of the service.
    pub fn observer(&self) -> (observer: &O)
        ensures
            *observer == self@.observer,
    {
        &self.observer
    }

    /// Takes a new fuzzer with the graph of its program. A graph that is not
    /// in normal form is refused and nothing changes. Else the fuzzer gets
    /// the next id, which is the number of fuzzers before it, and a new
    /// engine; the observer is told once of the new id with the structure
    /// graph of the program.
    pub fn create_fuzzer(&mut self, cfg: ControlFlowGraph) -> (result: Result<u64, ServiceError>)
        requires
            old(self).wf(),
        ensures
            final(self).wf(),
            result is Ok <==> cfg@.is_normalized(),
            result is Err ==> result == Err::<u64, ServiceError>(ServiceError::MalformedGraph),
            result is Err ==> final(self)@ == old(self)@,
            result is Ok ==> result == Ok::<u64, ServiceError>(old(self)@.fuzzers.len() as u64),
            result is Ok ==> final(self)@.fuzzers.len() == old(self)@.fuzzers.len() + 1,
            result is Ok ==> is_new_engine(final(self)@.fuzzers[old(self)@.fuzzers.len() as int], cfg@),
            final(self)@.observer.inv(),
            result is Ok ==> exists|g: GraphView| #[trigger]
                is_structure_of(g, cfg@) && old(self)@.observer.told_fuzzer(
                    old(self)@.fuzzers.len() as u64,
                    g,
                    &final(self)@.observer,
                ),
            forall|id: int| 0 <= id < old(self)@.fuzzers.len() ==> final(self)@.fuzzers[id] == old(self)@.fuzzers[id],
    {
        if !is_normalized(&cfg) {
            return Err(ServiceError::MalformedGraph);
        }
        let ghost c = cfg@;
        let ghost before = self.fuzzer_map@;
        let struct_graph = build_structure_graph(&cfg);
        proof {
            assert(struct_graph@.successor_lists().len() == struct_graph@.nodes.len());
            assert(crate::walk::lists_in_range(struct_graph@.successor_lists())) by {
                let lists = struct_graph@.successor_lists();
                assert forall|n: int, k: int| 0 <= n < lists.len() && 0 <= k < lists[n].len() implies #[trigger] lists[n][k]
                    < lists.len() by {
                    assert(struct_graph@.nodes[n].successors[k] < struct_graph@.nodes.len());
                }
            }
        }
        let fuzzer = Fuzzer::new(&struct_graph, cfg);
        let count: usize = self.fuzzer_map.len();
        let fuzzer_id: u64 = count as u64;
        proof {
            assert(!before.contains_key(fuzzer_id));
            assert(is_structure_of(struct_graph@, c));
        }
        self.fuzzer_map.insert(fuzzer_id, fuzzer);
        self.observer.create_fuzzer(fuzzer_id, &struct_graph);
        proof {
            assert(self.fuzzer_map@.len() == before.len() + 1);
            assert(self.fuzzer_map@.len() <= usize::MAX) by {
                assert(self.fuzzer_map@.len() == self.fuzzer_map.len());
            }
        }
        Ok(fuzzer_id)
    }

    /// Takes one batch of features of a fuzzer. An id that names no fuzzer
    /// is refused and nothing changes. Else the fuzzer's engine takes the
    /// batch, the observer is told of the bit-counters that the batch wrote
    /// and of the corpus input of the batch, where `corpus_id` names one,
    /// and the priorities that the observer gives are the result.
    pub fn update_features(&mut self, fuzzer_id: u64, features: &[u32], corpus_id: u64) -> (result: Result<
        Vec<(u64, u32)>,
        ServiceError,
    >)
        requires
            old(self).wf(),
        ensures
            final(self).wf(),
            final(self)@.fuzzers.len() == old(self)@.fuzzers.len(),
            result is Err <==> fuzzer_id >= old(self)@.fuzzers.len(),
            result is Err ==> result == Err::<Vec<(u64, u32)>, ServiceError>(ServiceError::UnknownFuzzer),
            result is Err ==> final(self)@ == old(self)@,
            result is Ok ==> propagated(
                old(self)@.fuzzers[fuzzer_id as int],
                features@,
                final(self)@.fuzzers[fuzzer_id as int],
            ),
            final(self)@.observer.inv(),
            result is Ok ==> exists|d: Seq<(usize, u8)>| #[trigger]
                reports(final(self)@.fuzzers[fuzzer_id as int], features@, d) && old(self)@.observer.told_batch(
                    fuzzer_id,
                    d,
                    corpus_of(corpus_id),
                    &final(self)@.observer,
                    result.unwrap()@,
                ),
            forall|id: int|
                0 <= id < old(self)@.fuzzers.len() && id != fuzzer_id ==> final(self)@.fuzzers[id]
                    == old(self)@.fuzzers[id],
    {
        let ghost before = self.fuzzer_map@;
        let corpus: Option<u64> = corpus_id_option(corpus_id);
        let mut fuzzer: Fuzzer = match self.fuzzer_map.remove(&fuzzer_id) {
            Some(found) => found,
            None => {
                proof {
                    assert(self.fuzzer_map@ =~= before);
                    assert(self@.fuzzers =~= old(self)@.fuzzers);
                }
                return Err(ServiceError::UnknownFuzzer);
            },
        };
        let hit_bit_counters: Vec<(usize, u8)> = fuzzer.update_features(features);
        self.fuzzer_map.insert(fuzzer_id, fuzzer);
        proof {
            assert(self.fuzzer_map@.dom() =~= before.dom());
            assert(self.fuzzer_map@.len() == before.len());
            assert forall|id: int| 0 <= id < old(self)@.fuzzers.len() && id != fuzzer_id implies self@.fuzzers[id]
                == old(self)@.fuzzers[id] by {
                assert(self.fuzzer_map@[id as u64] == before[id as u64]);
            }
        }
        let priorities = self.observer.update_nodes(fuzzer_id, hit_bit_counters.as_slice(), corpus);
        Ok(priorities)
    }
}

/// Makes the collector service of an observer.
pub fn create_service<O: Observer>(observer: O) -> (service: CollectorServiceImpl<O>)
    requires
        observer.inv(),
    ensures
        service.wf(),
        service@.fuzzers.len() == 0,
        service@.observer == observer,
{
    CollectorServiceImpl::new(observer)
}

} // verus!
