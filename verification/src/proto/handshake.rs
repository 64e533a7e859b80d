//! Session handshake packets, the packet kind byte and the union of all packets.

use vstd::prelude::*;
use super::client::ClientPacket;
use super::server::{ServerPacket, ServerPacketView};
use super::lobby::{LobbyCommand, LobbyState};
use vstd::string::StringSliceAdditionalSpecFns;
use vstd::utf8::valid_utf8;

verus! {

/// Bump this whenever the wire format changes in a backwards-incompatible way.
pub const PROTOCOL_VERSION: u8 = 1;

/// First byte of every UDP datagram: tells the receiver which packet follows.
#[derive(Debug, Clone, Copy, PartialEq, Eq, Structural)]
pub enum PacketKind {
    /// Client → server: initiate a session (`0x01`).
    ConnectRequest,
    /// Server → client: session accepted or rejected (`0x02`).
    ConnectAck,
    /// Client → server: per-tick input state (`0x03`).
    ClientInput,
    /// Server → client: per-tick authoritative snapshot (`0x04`).
    ServerSnapshot,
    /// Either direction: orderly teardown (`0x05`).
    Disconnect,
    /// Either direction: heartbeat / latency probe (`0x06`).
    Ping,
    /// Either direction: response to a Ping (`0x07`).
    Pong,
    /// Client → server: lobby command (`0x08`).
    LobbyCommand,
    /// Server → client: lobby state (`0x09`).
    LobbyState,
}

impl PacketKind {
    /// The discriminant byte of this kind.
    pub open spec fn spec_code(self) -> u8 {
        match self {
            PacketKind::ConnectRequest => 0x01,
            PacketKind::ConnectAck => 0x02,
            PacketKind::ClientInput => 0x03,
            PacketKind::ServerSnapshot => 0x04,
            PacketKind::Disconnect => 0x05,
            PacketKind::Ping => 0x06,
            PacketKind::Pong => 0x07,
            PacketKind::LobbyCommand => 0x08,
            PacketKind::LobbyState => 0x09,
        }
    }

    /// The kind whose discriminant byte is `v`, if any.
    pub open spec fn spec_from_u8(v: u8) -> Option<PacketKind> {
        if v == 0x01 {
            Some(PacketKind::ConnectRequest)
        } else if v == 0x02 {
            Some(PacketKind::ConnectAck)
        } else if v == 0x03 {
            Some(PacketKind::ClientInput)
        } else if v == 0x04 {
            Some(PacketKind::ServerSnapshot)
        } else if v == 0x05 {
            Some(PacketKind::Disconnect)
        } else if v == 0x06 {
            Some(PacketKind::Ping)
        } else if v == 0x07 {
            Some(PacketKind::Pong)
        } else if v == 0x08 {
            Some(PacketKind::LobbyCommand)
        } else if v == 0x09 {
            Some(PacketKind::LobbyState)
        } else {
            None
        }
    }

    pub fn code(self) -> (r: u8)
        ensures
            r == self.spec_code(),
    {
        match self {
            PacketKind::ConnectRequest => 0x01,
            PacketKind::ConnectAck => 0x02,
            PacketKind::ClientInput => 0x03,
            PacketKind::ServerSnapshot => 0x04,
            PacketKind::Disconnect => 0x05,
            PacketKind::Ping => 0x06,
            PacketKind::Pong => 0x07,
            PacketKind::LobbyCommand => 0x08,
            PacketKind::LobbyState => 0x09,
        }
    }

    pub fn from_u8(v: u8) -> (r: Option<PacketKind>)
        ensures
            r == PacketKind::spec_from_u8(v),
    {
        match v {
            0x01 => Some(PacketKind::ConnectRequest),
            0x02 => Some(PacketKind::ConnectAck),
            0x03 => Some(PacketKind::ClientInput),
            0x04 => Some(PacketKind::ServerSnapshot),
            0x05 => Some(PacketKind::Disconnect),
            0x06 => Some(PacketKind::Ping),
            0x07 => Some(PacketKind::Pong),
            0x08 => Some(PacketKind::LobbyCommand),
            0x09 => Some(PacketKind::LobbyState),
            _ => None,
        }
    }
}

/// Sent by the client to open a session (18 bytes on the wire).
///
/// Wire layout: [version: u8] [name: [u8; 16]]
#[derive(Debug, Clone, Copy)]
pub struct ConnectRequest {
    /// Protocol version; must match [`PROTOCOL_VERSION`].
    pub version: u8,
    /// Player display name as UTF-8 bytes, right-padded with `0x00`.
    /// Names longer than 16 bytes are silently truncated.
    pub name: [u8; 16],
}

/// The 16-byte name field for the name bytes `s`: its first 16 bytes,
/// right-padded with `0x00`.
pub open spec fn padded_name(s: Seq<u8>) -> Seq<u8> {
    Seq::new(16, |i: int| if i < s.len() { s[i] } else { 0u8 })
}

/// Length of the name held in a name field: up to the first `0x00`, or the
/// whole field when it has none.
pub open spec fn name_len(name: Seq<u8>) -> int
    decreases name.len(),
{
    if name.len() == 0 {
        0
    } else if name[0] == 0 {
        0
    } else {
        1 + name_len(name.drop_first())
    }
}

/// The leading bytes of a name field before its first `0x00`.
pub open spec fn name_bytes(name: Seq<u8>) -> Seq<u8> {
    name.take(name_len(name))
}

proof fn lemma_name_len(name: Seq<u8>)
    ensures
        0 <= name_len(name) <= name.len(),
        forall|j: int| 0 <= j < name_len(name) ==> name[j] != 0,
        name_len(name) < name.len() ==> name[name_len(name)] == 0,
    decreases name.len(),
{
    if name.len() > 0 && name[0] != 0 {
        lemma_name_len(name.drop_first());
        assert forall|j: int| 0 <= j < name_len(name) implies name[j] != 0 by {
            if j > 0 {
                assert(name[j] == name.drop_first()[j - 1]);
            }
        }
    }
}

/// Law: the name field made from the bytes of a name with no `0x00` among
/// its first 16 bytes reads back as those first 16 bytes (all of them when
/// the name is shorter).
pub proof fn law_request_name_reads_back(s: Seq<u8>)
    requires
        forall|i: int| 0 <= i < s.len() && i < 16 ==> s[i] != 0,
    ensures
        name_bytes(padded_name(s)) == s.take(if s.len() < 16 { s.len() as int } else { 16 }),
{
    let f = padded_name(s);
    let n: int = if s.len() < 16 { s.len() as int } else { 16 };
    lemma_name_len(f);
    if name_len(f) < n {
        assert(f[name_len(f)] == s[name_len(f)]);
    }
    if n < name_len(f) {
        assert(f[n] == 0);
    }
    assert(name_len(f) == n);
    assert(name_bytes(f) =~= s.take(n));
}

/// `std::str::from_utf8`: the bytes as text when they are valid UTF-8.
#[verifier::external_body]
fn str_from_utf8(v: &[u8]) -> (r: Option<&str>)
    ensures
        r is Some <==> valid_utf8(v@),
        r matches Some(s) ==> s.spec_bytes() == v@,
{
    std::str::from_utf8(v).ok()
}

impl ConnectRequest {
    /// Creates a request for the current protocol version with `name`
    /// truncated / zero-padded to 16 bytes.
    pub fn new(name: &str) -> (r: ConnectRequest)
        ensures
            r.version == PROTOCOL_VERSION,
            r.name@ == padded_name(name.spec_bytes()),
    {
        let bytes = name.as_bytes();
        let len: usize = if bytes.len() < 16 {
            bytes.len()
        } else {
            16
        };
        let mut buf = [0u8; 16];
        let mut i: usize = 0;
        while i < len
            invariant
                len <= 16,
                len <= bytes@.len(),
                len == bytes@.len() || len == 16,
                i <= len,
                buf@.len() == 16,
                forall|j: int| 0 <= j < i ==> buf@[j] == bytes@[j],
                forall|j: int| i <= j < 16 ==> buf@[j] == 0,
            decreases len - i,
        {
            buf.set(i, bytes[i]);
            i = i + 1;
        }
        assert(buf@ =~= padded_name(bytes@));
        ConnectRequest { version: PROTOCOL_VERSION, name: buf }
    }

    /// Returns the player name: the bytes before the first `0x00` as UTF-8
    /// text, or the empty string when they are not valid UTF-8.
    pub fn name_str(&self) -> (r: &str)
        ensures
            valid_utf8(name_bytes(self.name@)) ==> r.spec_bytes() == name_bytes(self.name@),
            !valid_utf8(name_bytes(self.name@)) ==> r@.len() == 0,
    {
        proof {
            lemma_name_len(self.name@);
        }
        let mut end: usize = 0;
        while end < 16 && self.name[end] != 0
            invariant
                self.name@.len() == 16,
                end <= name_len(self.name@),
                0 <= name_len(self.name@) <= 16,
                forall|j: int| 0 <= j < name_len(self.name@) ==> self.name@[j] != 0,
                name_len(self.name@) < 16 ==> self.name@[name_len(self.name@)] == 0,
            decreases 16 - end,
        {
            end = end + 1;
        }
        let all: &[u8] = vstd::array::array_as_slice(&self.name);
        let used = vstd::slice::slice_subrange(all, 0, end);
        assert(used@ =~= name_bytes(self.name@));
        match str_from_utf8(used) {
            Some(s) => s,
            None => {
                proof {
                    reveal_strlit("");
                }
                ""
            },
        }
    }
}

/// Sent by the server in response to a [`ConnectRequest`] (9 bytes on the wire).
///
/// Wire layout: [result: u8] [player_id: u16] [tick_rate: u8] [server_time: u32]
#[derive(Debug, Clone, Copy, PartialEq, Eq, Structural)]
pub struct ConnectAck {
    /// Whether the session was accepted; see [`ConnectResult`].
    pub result: ConnectResult,
    /// Server-assigned player identifier (only meaningful when `result == Accepted`).
    pub player_id: u16,
    /// Server tick rate in Hz (e.g. `60`).
    pub tick_rate: u8,
    /// Server clock in milliseconds at the moment of sending.
    pub server_time: u32,
}

/// Outcome of a [`ConnectRequest`].
#[derive(Debug, Clone, Copy, PartialEq, Eq, Structural)]
pub enum ConnectResult {
    /// The session was accepted (wire value 0).
    Accepted,
    ServerFull,
    VersionMismatch,
    Banned,
}

impl ConnectResult {
    pub open spec fn spec_code(self) -> u8 {
        match self {
            ConnectResult::Accepted => 0,
            ConnectResult::ServerFull => 1,
            ConnectResult::VersionMismatch => 2,
            ConnectResult::Banned => 3,
        }
    }

    pub open spec fn spec_from_u8(v: u8) -> Option<ConnectResult> {
        if v == 0 {
            Some(ConnectResult::Accepted)
        } else if v == 1 {
            Some(ConnectResult::ServerFull)
        } else if v == 2 {
            Some(ConnectResult::VersionMismatch)
        } else if v == 3 {
            Some(ConnectResult::Banned)
        } else {
            None
        }
    }

    pub fn code(self) -> (r: u8)
        ensures
            r == self.spec_code(),
    {
        match self {
            ConnectResult::Accepted => 0,
            ConnectResult::ServerFull => 1,
            ConnectResult::VersionMismatch => 2,
            ConnectResult::Banned => 3,
        }
    }

    pub fn from_u8(v: u8) -> (r: Option<ConnectResult>)
        ensures
            r == ConnectResult::spec_from_u8(v),
    {
        match v {
            0 => Some(ConnectResult::Accepted),
            1 => Some(ConnectResult::ServerFull),
            2 => Some(ConnectResult::VersionMismatch),
            3 => Some(ConnectResult::Banned),
            _ => None,
        }
    }
}

/// Tagged union of every packet type: what the codec decodes and encodes.
#[derive(Debug, Clone)]
pub enum AnyPacket {
    ConnectRequest(ConnectRequest),
    ConnectAck(ConnectAck),
    ClientInput(ClientPacket),
    ServerSnapshot(ServerPacket),
    LobbyCommand(LobbyCommand),
    LobbyState(LobbyState),
    Disconnect,
    Ping(u32),
    Pong(u32),
}

/// The mathematical content of an [`AnyPacket`]: the connect request's name
/// as a byte sequence, the snapshot's lists as sequences.
pub enum PacketView {
    ConnectRequest { version: u8, name: Seq<u8> },
    ConnectAck(ConnectAck),
    ClientInput(ClientPacket),
    ServerSnapshot(ServerPacketView),
    LobbyCommand(LobbyCommand),
    LobbyState(LobbyState),
    Disconnect,
    Ping(u32),
    Pong(u32),
}

impl View for AnyPacket {
    type V = PacketView;

    open spec fn view(&self) -> PacketView {
        match self {
            AnyPacket::ConnectRequest(r) => PacketView::ConnectRequest {
                version: r.version,
                name: r.name@,
            },
            AnyPacket::ConnectAck(a) => PacketView::ConnectAck(*a),
            AnyPacket::ClientInput(c) => PacketView::ClientInput(*c),
            AnyPacket::ServerSnapshot(s) => PacketView::ServerSnapshot(s@),
            AnyPacket::LobbyCommand(c) => PacketView::LobbyCommand(*c),
            AnyPacket::LobbyState(l) => PacketView::LobbyState(*l),
            AnyPacket::Disconnect => PacketView::Disconnect,
            AnyPacket::Ping(t) => PacketView::Ping(*t),
            AnyPacket::Pong(t) => PacketView::Pong(*t),
        }
    }
}

impl AnyPacket {
    /// The kind byte that heads this packet on the wire.
    pub open spec fn spec_kind(&self) -> PacketKind {
        match self {
            AnyPacket::ConnectRequest(_) => PacketKind::ConnectRequest,
            AnyPacket::ConnectAck(_) => PacketKind::ConnectAck,
            AnyPacket::ClientInput(_) => PacketKind::ClientInput,
            AnyPacket::ServerSnapshot(_) => PacketKind::ServerSnapshot,
            AnyPacket::LobbyCommand(_) => PacketKind::LobbyCommand,
            AnyPacket::LobbyState(_) => PacketKind::LobbyState,
            AnyPacket::Disconnect => PacketKind::Disconnect,
            AnyPacket::Ping(_) => PacketKind::Ping,
            AnyPacket::Pong(_) => PacketKind::Pong,
        }
    }

    pub fn kind(&self) -> (r: PacketKind)
        ensures
            r == self.spec_kind(),
    {
        match self {
            AnyPacket::ConnectRequest(_) => PacketKind::ConnectRequest,
            AnyPacket::ConnectAck(_) => PacketKind::ConnectAck,
            AnyPacket::ClientInput(_) => PacketKind::ClientInput,
            AnyPacket::ServerSnapshot(_) => PacketKind::ServerSnapshot,
            AnyPacket::LobbyCommand(_) => PacketKind::LobbyCommand,
            AnyPacket::LobbyState(_) => PacketKind::LobbyState,
            AnyPacket::Disconnect => PacketKind::Disconnect,
            AnyPacket::Ping(_) => PacketKind::Ping,
            AnyPacket::Pong(_) => PacketKind::Pong,
        }
    }
}

} // verus!
