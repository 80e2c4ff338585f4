//! A file-analysis engine: a resizable worker pool fed from one FIFO queue,
//! cooperative cancellation, a registry of per-item lifecycle states, and the
//! per-file text statistics the workers compute.
//!
//! Everything here is sequential and deterministic. The pool and the run are
//! state machines: a caller that owns threads performs the blocking parts
//! (waiting, spawning, joining, reading files) and reports each event to the
//! state machine under a lock of its own.

pub mod analyzer;
pub mod cancel;
pub mod counting;
pub mod dispatcher;
pub mod listing;
pub mod results;
pub mod status;
pub mod thread_pool;
