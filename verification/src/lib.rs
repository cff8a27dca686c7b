//! A transparent protocol translator between a legacy reliable-UDP game
//! protocol (bit-packed datagrams with five reliability modes) and a pair of
//! modern transports: length-prefixed frames over a TCP byte stream and tagged
//! datagrams over UDP.
//!
//! This crate holds the verified core: the bit-level codec, the range list
//! used for acknowledgements, the packet codec, the receive and send engines,
//! the stream-framing state machines, and the payload scanner. All socket
//! work lives outside the crate; the engines consume and produce plain byte
//! vectors.

pub mod bitio;
pub mod bridge;
pub mod comp;
pub mod connection;
pub mod fixstr;
pub mod log;
pub mod packet;
pub mod rangelist;
pub mod recv;
pub mod send;
pub mod tcpudp;
