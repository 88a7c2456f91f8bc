//! A small message-oriented networking layer over datagrams: packets with a
//! trailing header, per-channel delivery guarantees (reliable, sequenced,
//! unreliable, unreliable-and-droppable), retransmission of unacknowledged
//! packets and connection time-outs.
pub mod bytes;
pub mod packet;
pub mod packetserialize;
pub mod channel;
pub mod peerdata;
pub mod clock;
pub mod stored;
pub mod messages;
pub mod server;
pub mod client;
