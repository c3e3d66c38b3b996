//! A self-hosted message-queue engine with at-least-once delivery.
//!
//! Every change of state is an event. The store applies events to the queues
//! it holds, the event log frames them as bytes so that the same state can be
//! rebuilt later, and the engine ties the two together. The sweeper names
//! the leases that have run out, and the queue service turns requests into
//! events and what became of them into responses.
//!
//! The library does no I/O and reads no clock: the caller hands in the
//! instant at which an event arrives, makes the record of each accepted
//! event durable, and hands the bytes of the log back to rebuild the engine.

pub mod engine;
pub mod error;
pub mod event;
pub mod event_log;
pub mod laws;
pub mod model;
pub mod queue;
pub mod record;
pub mod store;
pub mod sweeper;
pub mod transport;
pub mod wellformed;
