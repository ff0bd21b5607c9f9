//! Peer-to-peer file transfer over UDP: the reliable ordered datagram
//! protocol, the rendezvous pairing rules and the hole-punch address
//! exchange, written as state machines that a socket driver runs.

pub mod packet;
pub mod safe_read_write;
pub mod ordering;
pub mod endpoint;
pub mod rendezvous;
pub mod transfer;
pub mod clock;
pub mod cli;
pub mod holepunch;
