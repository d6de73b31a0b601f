//! A ring-shaped peer-to-peer overlay: nodes ordered by the hash of their
//! address keep links to their two neighbours and admit, place and release
//! members through a small text protocol.
//!
//! The library holds the membership logic: addresses and their hash
//! (`addr`), the wire grammar (`wire`), the error kinds (`error`), the
//! per-node state machine (`node`), the laws that relate its operations
//! (`laws`), and a model of a whole ring under reliable delivery, with the
//! proof that joins keep it one ring (`network`).

pub mod addr;
pub mod error;
pub mod wire;
pub mod node;
pub mod laws;
pub mod network;
