//! The datagram rules of the UDP transport: the size limit, the receive error,
//! and the two halves of the connect handshake.
//!
//! The socket itself lives with the program that owns the async runtime; it
//! hands every received datagram to [`decode_datagram`] and sends whatever
//! [`accept_ack`] builds.

use vstd::prelude::*;
use crate::codec::decode::decode;
use crate::codec::error::DecodeError;
use crate::codec::wire::spec_decode;
use crate::proto::handshake::{
    AnyPacket, ConnectAck, ConnectRequest, ConnectResult, PacketView, PROTOCOL_VERSION,
};

verus! {

/// Maximum UDP payload we will ever read or write.
///
/// Keeping this below the typical 1 500 B Ethernet MTU minus IP/UDP headers
/// prevents fragmentation.
pub const MAX_DATAGRAM: usize = 1400;

/// The standard library's I/O error, carried through unchanged.
#[verifier::external_type_specification]
#[verifier::external_body]
pub struct ExIoError(std::io::Error);

/// Errors that can occur when receiving a packet.
#[derive(Debug)]
pub enum RecvError {
    /// Underlying I/O error (socket closed, OS error, etc.).
    Io(std::io::Error),
    /// The datagram exceeds [`MAX_DATAGRAM`]; contains actual length.
    Oversized(usize),
    /// The datagram could not be decoded.
    Decode(DecodeError),
}

impl From<std::io::Error> for RecvError {
    fn from(e: std::io::Error) -> (r: RecvError) {
        RecvError::Io(e)
    }
}

impl vstd::std_specs::convert::FromSpecImpl<std::io::Error> for RecvError {
    open spec fn obeys_from_spec() -> bool {
        true
    }

    open spec fn from_spec(e: std::io::Error) -> RecvError {
        RecvError::Io(e)
    }
}

impl From<DecodeError> for RecvError {
    fn from(e: DecodeError) -> (r: RecvError) {
        RecvError::Decode(e)
    }
}

impl vstd::std_specs::convert::FromSpecImpl<DecodeError> for RecvError {
    open spec fn obeys_from_spec() -> bool {
        true
    }

    open spec fn from_spec(e: DecodeError) -> RecvError {
        RecvError::Decode(e)
    }
}

/// What a received datagram of these bytes turns into: `Oversized` past the
/// limit, else the codec's verdict.
pub open spec fn datagram_outcome(buf: Seq<u8>) -> Result<PacketView, RecvError> {
    if buf.len() > MAX_DATAGRAM {
        Err(RecvError::Oversized(buf.len() as usize))
    } else {
        match spec_decode(buf) {
            Ok(p) => Ok(p),
            Err(e) => Err(RecvError::Decode(e)),
        }
    }
}

/// Check the size of a received datagram and decode it.
///
/// A datagram longer than [`MAX_DATAGRAM`] is refused with its length;
/// otherwise the codec decides.
pub fn decode_datagram(buf: &[u8]) -> (r: Result<AnyPacket, RecvError>)
    ensures
        match r {
            Ok(p) => datagram_outcome(buf@) == Ok::<_, RecvError>(p@),
            Err(e) => datagram_outcome(buf@) == Err::<PacketView, _>(e),
        },
{
    if buf.len() > MAX_DATAGRAM {
        return Err(RecvError::Oversized(buf.len()));
    }
    match decode(buf) {
        Ok(p) => Ok(p),
        Err(e) => Err(RecvError::Decode(e)),
    }
}

/// Server side of the handshake: the acknowledgement sent back for `req`.
///
/// A request of another protocol version is answered `VersionMismatch`,
/// every other one `Accepted`; the caller decides the id, tick rate and clock.
pub fn accept_ack(req: &ConnectRequest, player_id: u16, tick_rate: u8, server_time: u32) -> (r:
    ConnectAck)
    ensures
        r.result == (if req.version != PROTOCOL_VERSION {
            ConnectResult::VersionMismatch
        } else {
            ConnectResult::Accepted
        }),
        r.player_id == player_id,
        r.tick_rate == tick_rate,
        r.server_time == server_time,
{
    let result = if req.version != PROTOCOL_VERSION {
        ConnectResult::VersionMismatch
    } else {
        ConnectResult::Accepted
    };
    ConnectAck { result, player_id, tick_rate, server_time }
}

/// Client side of the handshake: the reply to a connect request must be a
/// `ConnectAck`; anything else is an invalid field.
pub fn expect_connect_ack(packet: AnyPacket) -> (r: Result<ConnectAck, RecvError>)
    ensures
        match packet {
            AnyPacket::ConnectAck(a) => r == Ok::<ConnectAck, RecvError>(a),
            _ => r == Err::<ConnectAck, RecvError>(
                RecvError::Decode(DecodeError::InvalidField("expected ConnectAck")),
            ),
        },
{
    match packet {
        AnyPacket::ConnectAck(ack) => Ok(ack),
        _ => Err(RecvError::Decode(DecodeError::InvalidField("expected ConnectAck"))),
    }
}

} // verus!
