//! Reassembly of fragmented datagrams into complete messages.
//!
//! Each datagram carries one fragment of a logical message. The library
//! decodes fragments, accumulates them per message id, detects completion
//! and gaps, fingerprints reassembled content, and decides when the engine
//! should wind down.

pub mod clock;
pub mod data;
pub mod digest;
pub mod endian;
pub mod eventloop;
pub mod order;
pub mod server;
pub mod text;
