//! Core of a fuzzing-coverage collector: control-flow graph normalization,
//! projection of raw coverage features onto graph nodes, and tracking of the
//! coverage frontier with per-corpus priorities.

pub mod bits;
pub mod cfg;
pub mod client;
pub mod concat;
pub mod counting;
pub mod fuzzer;
pub mod observer;
pub mod remap;
pub mod seqs;
pub mod service;
pub mod structure;
pub mod tracker;
pub mod walk;
