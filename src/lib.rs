//! Deterministic price normalisation and aggregation for an oracle data request.
//!
//! The library holds the logic of both phases: reading decimal price text
//! into fixed-point integers, filtering node reveals, the median that forms
//! the consensus value, and the word-aligned binary encoding of an unsigned
//! integer array. Fetching quotes and talking to the host stay outside.
pub mod abi;
pub mod decimal;
pub mod median;
pub mod observer;
pub mod price;
pub mod tally;
