//! Core of a single-venue limit-order-book trading engine.
//!
//! The engine consumes a totally ordered stream of commands (create order,
//! cancel order, adjust balance), applies them deterministically against
//! an in-memory order book and per-user asset balances, emits trades as a
//! side effect of matching, and records every applied command in an
//! append-only journal from which the whole state can be rebuilt by replay.

pub mod utils;
pub mod messages;
pub mod balances;
pub mod sequencer;
pub mod engine;
pub mod book;
