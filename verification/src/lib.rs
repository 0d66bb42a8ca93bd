//! Wire framing codec and connection-multiplexing relay logic.
//!
//! The crate models a relay between many remote agents and one central
//! aggregator: a length-prefixed binary framing of typed packets, an
//! incremental decoder that turns a byte stream into packets, the
//! aggregator's registry of live connections, and the agent-side session
//! rules (identity filtering, command dispatch, reconnect bookkeeping).

pub mod agent;
pub mod buffer;
pub mod codec;
pub mod config;
pub mod messages;
pub mod registry;
