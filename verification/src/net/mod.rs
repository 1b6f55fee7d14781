//! Networking: packing, framing, splitting and agreeing on what was sent.

pub mod bitpack;
pub mod chunk;
pub mod framing;
pub mod input;
pub mod interp;
pub mod lockstep;
pub mod quic;
pub mod replication;
pub mod snapshot;
