//! A timestamped, progress-tracking dataflow engine.
//!
//! Records flow through a graph of operators. Every record carries a logical
//! timestamp from a partially ordered set, and the engine tracks which
//! timestamps may still appear on each edge, so that an operator learns when
//! a timestamp is complete and may act on it.
//!
//! - [`order`]: timestamps, their order, and how a loop moves them forward.
//! - [`frontier`]: antichains of timestamps, the frontiers of the edges.
//! - [`capability`]: the tokens that permit sending at a time, and the
//!   ledger that counts them.
//! - [`exchange`]: how a channel routes the records of a batch.
//! - [`notificator`]: requests to be told when a time is complete.
//! - [`graph`]: the arena of operators, loops included, and the number of
//!   steps from each operator to each other.
//! - [`worker`]: the state of a running dataflow, and every step that moves
//!   a record or a capability through it.
//! - [`operator`]: the state of an operator that waits for its input to be
//!   complete.
//! - [`input`], [`probe`], [`capture`]: where records come in, where
//!   progress is watched, and how a stream is taken out and brought back.
//! - [`command`]: which dataflow a run is asked for.
//! - [`sealed`]: containers that differ in who may look inside.
//! - [`vectors`]: what the engine asks of vectors beyond what they offer.
//! - [`violation`]: the ways in which a caller can break the protocol.
//!
//! The engine never runs the logic of an operator itself. The code that
//! drives a dataflow pulls the batches that wait at an operator, computes,
//! and gives the results back under the capability that came with the
//! batch; the worker moves what needs no logic, and says how far every
//! frontier has come.

pub mod capability;
pub mod capture;
pub mod command;
pub mod exchange;
pub mod frontier;
pub mod graph;
pub mod input;
pub mod notificator;
pub mod operator;
pub mod order;
pub mod probe;
pub mod sealed;
pub mod vectors;
pub mod violation;
pub mod worker;
