//! The observer of a collector service: what is told of every new fuzzer
//! and of every batch of node updates.

use vstd::prelude::*;
use crate::structure::{GraphView, StructureGraph};
use crate::tracker::{CoverageTracker, after_update, after_reports, deltas_in_range, initial_view, lists_priorities};

verus! {

/// An observer of the fuzzers of one service. The service tells it of each
/// new fuzzer, with the fuzzer's structure graph, and of each batch, with
/// the bit-counters that the batch wrote; the observer answers a batch with
/// the priorities of corpus inputs that the fuzzer is to apply.
pub trait Observer {
    /// What the observer keeps true of itself between calls. Each observer
    /// says what that is; the service sees to it that it holds before every
    /// call, and the observer that it holds after.
    spec fn inv(&self) -> bool;

    /// What being told of the fuzzer `fuzzer_id` with the graph `graph` makes
    /// of the observer: `post` is the observer after it was told. An observer
    /// that says nothing of this leaves it as it is.
    open spec fn told_fuzzer(&self, fuzzer_id: u64, graph: GraphView, post: &Self) -> bool {
        true
    }

    /// What being told of the batch `deltas` of the fuzzer `fuzzer_id`, with
    /// its corpus input, makes of the observer, and which list it answers:
    /// `post` is the observer after it was told, `list` its answer. An
    /// observer that says nothing of this leaves it as it is.
    open spec fn told_batch(
        &self,
        fuzzer_id: u64,
        deltas: Seq<(usize, u8)>,
        corpus_id: Option<u64>,
        post: &Self,
        list: Seq<(u64, u32)>,
    ) -> bool {
        true
    }

    /// Takes the structure graph of a new fuzzer.
    fn create_fuzzer(&mut self, fuzzer_id: u64, struct_graph: &StructureGraph)
        requires
            old(self).inv(),
            struct_graph@.wf(),
        ensures
            final(self).inv(),
            old(self).told_fuzzer(fuzzer_id, struct_graph@, final(self)),
    ;

    /// Takes the bit-counters that one batch of a fuzzer wrote, and the
    /// corpus input of the batch where it has one, and gives the priorities
    /// to hand to the fuzzer.
    fn update_nodes(&mut self, fuzzer_id: u64, bit_counters: &[(usize, u8)], corpus_id: Option<u64>) -> (list: Vec<
        (u64, u32),
    >)
        requires
            old(self).inv(),
        ensures
            final(self).inv(),
            old(self).told_batch(fuzzer_id, bit_counters@, corpus_id, final(self), list@),
    ;
}

impl Observer for CoverageTracker {
    open spec fn inv(&self) -> bool {
        self.wf()
    }

    /// The tracker is set up by the fuzzer with the id 0 and left as it is by
    /// any other.
    open spec fn told_fuzzer(&self, fuzzer_id: u64, graph: GraphView, post: &Self) -> bool {
        &&& fuzzer_id == 0 ==> post@ == initial_view(graph)
        &&& fuzzer_id != 0 ==> post@ == self@
    }

    /// Where every listed node is a node of the tracker, the tracker takes
    /// the update and answers with the priorities of the fuzzer's corpus
    /// inputs. A list that names another node is not taken: the tracker
    /// stays as it is and gives no priority.
    open spec fn told_batch(
        &self,
        fuzzer_id: u64,
        deltas: Seq<(usize, u8)>,
        corpus_id: Option<u64>,
        post: &Self,
        list: Seq<(u64, u32)>,
    ) -> bool {
        if deltas_in_range(deltas, self@.node_count()) {
            &&& post@ == after_update(self@, fuzzer_id, deltas, corpus_id)
            &&& lists_priorities(after_reports(self@, fuzzer_id, deltas, corpus_id), fuzzer_id, list)
        } else {
            &&& post@ == self@
            &&& list.len() == 0
        }
    }

    fn create_fuzzer(&mut self, fuzzer_id: u64, struct_graph: &StructureGraph) {
        CoverageTracker::create_fuzzer(self, fuzzer_id, struct_graph)
    }

    fn update_nodes(&mut self, fuzzer_id: u64, bit_counters: &[(usize, u8)], corpus_id: Option<u64>) -> (list: Vec<
        (u64, u32),
    >)
    {
        if self.takes(bit_counters) {
            CoverageTracker::update_nodes(self, fuzzer_id, bit_counters, corpus_id)
        } else {
            Vec::new()
        }
    }
}

} // verus!
