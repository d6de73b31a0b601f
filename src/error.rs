//! The ways in which the ring's work can fail.

use vstd::prelude::*;

verus! {

/// Failures of the ring's work. Only `Bind` ends the process; each of the
/// others concerns one message, is reported, and the node goes on.
#[derive(PartialEq, Eq, Structural, Clone, Copy, Debug)]
pub enum DhtError {
    /// The local socket could not be bound.
    Bind,
    /// Inbound bytes are not text of the protocol's grammar.
    Decode,
    /// A join names a node whose hash is the local node's own.
    SelfJoin,
    /// An outbound datagram could not be sent.
    Send,
    /// The channel from the listener closed unexpectedly.
    ChannelClosed,
}

} // verus!
