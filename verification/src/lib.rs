//! A Monte Carlo engine for estimating annual monetary loss from structured
//! risk models: an event frequency, a tree of gating conditions, a loss
//! magnitude and a set of incremental costs, each described by a triangular
//! distribution.
//!
//! All quantities are fixed-point integers: a value `q` stands for the real
//! number `q / SCALE`. This keeps every computation exact and verifiable;
//! the surrounding application converts to and from decimal notation.

pub mod calculation;
pub mod data_types;
pub mod distribution;
pub mod numeric;
pub mod rng;
