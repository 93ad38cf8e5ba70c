//! A byte-level subword vocabulary trainer.
//!
//! The library keeps an ordered catalog of byte-string tokens, compiles it
//! into a deterministic byte automaton, finds minimum-cost segmentations of
//! byte buffers by dynamic programming, gathers token statistics, and grows
//! or prunes the vocabulary to lower the total segmentation cost of a corpus.

pub mod automaton;
pub mod persist;
pub mod segment;
pub mod stats;
pub mod tokens;
pub mod trainer;
