//! Core logic of a networked top-down tactical shooter: the wire protocol
//! and its binary codec, the lobby and round rules of the server, weapon and
//! attachment catalogues, and the grid analysis that finds rooms in a level.

pub mod proto;
pub mod codec;
pub mod text;
pub mod weapon;
pub mod socket;
pub mod server;
pub mod movement;
pub mod camera;
pub mod spatial;
pub mod rooms;
pub mod level;
pub mod input;
pub mod player;

pub use codec::{decode, encode, DecodeError};
pub use proto::client::{ClientPacket, InputFlags};
pub use proto::handshake::{
    AnyPacket, ConnectAck, ConnectRequest, ConnectResult, PacketKind, PROTOCOL_VERSION,
};
pub use proto::lobby::{LobbyCommand, LobbyCommandKind, LobbyState};
pub use proto::server::{
    BulletEvent, MatchState, MovementState, PlayerState, SelfState, ServerPacket, SoundEvent,
    SoundKind, TeammateView,
};
pub use proto::MoveSpeed;
pub use socket::{RecvError, MAX_DATAGRAM};
