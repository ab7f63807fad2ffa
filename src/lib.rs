//! A fixed-size worker pool protocol and an HTTP response-header writer.
//!
//! The pool's decisions (how many workers to start, what a worker does with
//! each message, how shutdown proceeds) are verified here, together with a
//! model of the shared queue over which the pool's guarantees are proved; the
//! threads and the channel that carry the decisions out live in the
//! application crate.
pub mod http;
pub mod thread_pool;
