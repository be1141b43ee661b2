//! A run-based XOR-delta byte encoder.
//!
//! The input is split into runs of two kinds: sequential runs, stored as a
//! chain of XOR deltas, and alternating runs, stored as a cycle count and one
//! XOR value. Each run is written as a control byte followed by its payload.
pub mod cli;
pub mod decoding;
pub mod encoder;
pub mod laws;
pub mod run;
