//! Binary encode / decode for all wire packets.
//!
//! Every datagram starts with a packet kind byte, followed by the packet
//! body in big-endian network byte order.

pub mod error;
pub mod wire;
pub mod io;
pub mod encode;
pub mod decode;
pub mod laws;

pub use decode::decode;
pub use encode::encode;
pub use error::DecodeError;
