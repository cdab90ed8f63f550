//! Lifecycle of automatically answered KPI oracles, chain by chain.
//!
//! - `models`: the tables of active oracles (one row per chain and address) and of
//!   scan checkpoints (one row per chain).
//! - `commons`: candidate extraction from creation logs, and the acknowledgement of
//!   each candidate once its specification has been fetched and validated.
//! - `answering`: which active oracles a new block makes answerable, and which
//!   leave the store once their answer is confirmed.
//! - `listener`: the dispatcher of one chain's scanner updates, and the checkpoint
//!   rules it follows during and after the replay of past blocks.
//!
//! Reads from the chain, content fetches, validation against reference data and
//! transaction submission happen outside; their results come in as plain values.

pub mod address;
pub mod answering;
pub mod commons;
pub mod listener;
pub mod models;
