//! Protocol engine of a traffic-camouflaging tunnel: the keystream cipher,
//! the destination-host codec, the camouflage handshake, and the framing
//! used by the TCP, UDP and DNS relays.

pub mod cipher;
pub mod dns;
pub mod handshake;
pub mod host;
pub mod tcp;
pub mod tools;
pub mod udp;
