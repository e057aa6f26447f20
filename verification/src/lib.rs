//! A relay between one "outside" datagram channel carrying synthetic
//! IPv4/UDP packets and a set of local datagram channels carrying bare
//! payload bytes, routed by a fixed table of port pairs.
//!
//! This crate holds the verified core: the internet checksum, the packet
//! codec, the port-pair registry, and the decision logic of the forwarding
//! loop.  The surrounding process (sockets, polling, process plumbing) is
//! ordinary unverified code that calls into this library.

pub mod forward;
pub mod udp;
