//! A real-time message relay: clients connect over a bidirectional text
//! channel, declare interest in named resources, and receive every message
//! published to the relay's fanout.
//!
//! The crate holds the relay engine itself: connection admission and
//! lifecycle, the subscription index, the broadcast fanout, and the protocol
//! that interprets inbound client requests. The transport (accepting raw
//! connections, reading and writing frames) is left to the embedding
//! application, which drives the engine through plain values.

pub mod distinct;
pub mod fanout;
pub mod index;
pub mod messages;
pub mod protocol;
pub mod registry;
pub mod relay;
pub mod supervisor;
