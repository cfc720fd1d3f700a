//! Discovery-and-probing engine for relay endpoints: canonical parsing and
//! formatting of `host:port` address strings, port-based candidate narrowing,
//! a ranked-fallback source plan, and a batch scan scheduler.

pub mod codec;
pub mod filter;
pub mod relay;
pub mod scheduler;
pub mod source;
