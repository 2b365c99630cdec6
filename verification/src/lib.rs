//! Bridges a batched, offset-committing message broker to a sequential,
//! frame-at-a-time byte stream.
//!
//! The verified core is a state machine over a FIFO queue of pending frames.
//! An unverified driver owns the broker session, polls it for batches of
//! message-sets, and feeds every outcome to the core; the core decides what
//! to buffer, which broker calls to make in which order, and when the stream
//! is exhausted.

pub mod protocol;
pub mod startup;
