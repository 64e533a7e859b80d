//! The wire format, stated over byte sequences.
//!
//! Every datagram starts with a packet kind byte, followed by the packet body
//! in big-endian byte order.  `encoding` gives the bytes of a packet;
//! `spec_decode` states how a buffer is read back, including which error a
//! malformed buffer yields.

use vstd::prelude::*;
use crate::proto::client::{ClientPacket, InputFlags};
use crate::proto::handshake::{ConnectAck, ConnectResult, PacketKind, PacketView};
use crate::proto::lobby::{LobbyCommand, LobbyCommandKind, LobbyState};
use crate::proto::server::{
    BulletEvent, MatchState, MovementState, PlayerState, SelfState, ServerPacketView, SoundEvent,
    SoundKind, TeammateView,
};
use super::error::DecodeError;

verus! {

/// At most this many entries of each snapshot list go on the wire.
pub const MAX_LIST_LEN: usize = 255;

// ── Primitive encodings ──────────────────────────────────────────────────────

/// Big-endian bytes of a `u16`.
pub open spec fn be16(v: u16) -> Seq<u8> {
    seq![(v / 256) as u8, (v % 256) as u8]
}

/// Big-endian bytes of a `u32`.
pub open spec fn be32(v: u32) -> Seq<u8> {
    seq![
        (v / 0x100_0000) as u8,
        ((v / 0x1_0000) % 256) as u8,
        ((v / 256) % 256) as u8,
        (v % 256) as u8,
    ]
}

/// The two's-complement byte of an `i8`.
pub open spec fn i8_byte(v: i8) -> u8 {
    if v < 0 {
        (v + 256) as u8
    } else {
        v as u8
    }
}

/// The `i8` whose two's-complement byte is `b`.
pub open spec fn byte_i8(b: u8) -> i8 {
    if b >= 128 {
        (b - 256) as i8
    } else {
        b as i8
    }
}

/// The `u16` stored big-endian at `b[i..i+2]`.
pub open spec fn u16_at(b: Seq<u8>, i: int) -> u16 {
    (b[i] * 256 + b[i + 1]) as u16
}

/// The `u32` stored big-endian at `b[i..i+4]`.
pub open spec fn u32_at(b: Seq<u8>, i: int) -> u32 {
    (b[i] * 0x100_0000 + b[i + 1] * 0x1_0000 + b[i + 2] * 256 + b[i + 3]) as u32
}

// ── Record encodings ─────────────────────────────────────────────────────────

pub open spec fn enc_self(s: SelfState) -> Seq<u8> {
    seq![s.health, s.ammo, s.reload_progress, s.movement_state.0] + be32(s.x) + be32(s.y) + be16(
        s.rotation,
    ) + be32(s.aim_cone_half_angle)
}

pub open spec fn enc_player(p: PlayerState) -> Seq<u8> {
    be16(p.id) + be32(p.x) + be32(p.y) + be16(p.rotation) + seq![
        p.movement_state.0,
        p.weapon,
        p.team,
    ]
}

pub open spec fn enc_bullet(e: BulletEvent) -> Seq<u8> {
    be16(e.shooter_id) + be32(e.from_x) + be32(e.from_y) + be32(e.to_x) + be32(e.to_y) + be16(
        e.hit_player_id,
    ) + seq![e.shooter_team]
}

pub open spec fn enc_sound(s: SoundEvent) -> Seq<u8> {
    seq![s.kind.spec_code()] + be32(s.x) + be32(s.y) + seq![s.intensity]
}

pub open spec fn enc_teammate(t: TeammateView) -> Seq<u8> {
    be32(t.x) + be32(t.y) + be16(t.rotation) + be32(t.sight_range) + be32(t.sight_half_angle)
        + be32(t.sight_circle_radius)
}

pub open spec fn enc_match(m: MatchState) -> Seq<u8> {
    be16(m.timer) + seq![m.score_team1, m.score_team2]
}

/// The concatenated encodings of `xs`, in order.
pub open spec fn enc_all<T>(xs: Seq<T>, f: spec_fn(T) -> Seq<u8>) -> Seq<u8>
    decreases xs.len(),
{
    if xs.len() == 0 {
        Seq::empty()
    } else {
        enc_all(xs.drop_last(), f) + f(xs.last())
    }
}

/// How many entries of a list of `n` go on the wire.
pub open spec fn wire_count(n: nat) -> nat {
    if n <= 255 {
        n
    } else {
        255
    }
}

/// A list on the wire: a count byte, then that many entries.
pub open spec fn enc_list<T>(xs: Seq<T>, f: spec_fn(T) -> Seq<u8>) -> Seq<u8> {
    let n = wire_count(xs.len());
    seq![n as u8] + enc_all(xs.take(n as int), f)
}

pub open spec fn player_enc() -> spec_fn(PlayerState) -> Seq<u8> {
    |p: PlayerState| enc_player(p)
}

pub open spec fn bullet_enc() -> spec_fn(BulletEvent) -> Seq<u8> {
    |e: BulletEvent| enc_bullet(e)
}

pub open spec fn sound_enc() -> spec_fn(SoundEvent) -> Seq<u8> {
    |s: SoundEvent| enc_sound(s)
}

pub open spec fn teammate_enc() -> spec_fn(TeammateView) -> Seq<u8> {
    |t: TeammateView| enc_teammate(t)
}

pub open spec fn enc_snapshot(s: ServerPacketView) -> Seq<u8> {
    be32(s.tick) + be32(s.timestamp) + enc_self(s.me) + enc_list(s.players, player_enc())
        + enc_list(s.bullets, bullet_enc()) + enc_list(s.sounds, sound_enc()) + enc_list(
        s.teammate_views,
        teammate_enc(),
    ) + enc_match(s.match_state)
}

/// The bytes of a packet: its kind byte, then its body.
pub open spec fn encoding(p: PacketView) -> Seq<u8> {
    match p {
        PacketView::ConnectRequest { version, name } => seq![
            PacketKind::ConnectRequest.spec_code(),
            version,
        ] + name,
        PacketView::ConnectAck(a) => seq![PacketKind::ConnectAck.spec_code(), a.result.spec_code()]
            + be16(a.player_id) + seq![a.tick_rate] + be32(a.server_time),
        PacketView::ClientInput(c) => seq![PacketKind::ClientInput.spec_code()] + be16(c.sequence)
            + be32(c.timestamp) + seq![i8_byte(c.movement_x), i8_byte(c.movement_y)] + be16(
            c.rotation,
        ) + seq![c.flags.0],
        PacketView::ServerSnapshot(s) => seq![PacketKind::ServerSnapshot.spec_code()]
            + enc_snapshot(s),
        PacketView::LobbyCommand(c) => seq![
            PacketKind::LobbyCommand.spec_code(),
            c.kind.spec_code(),
            c.team,
        ],
        PacketView::LobbyState(l) => seq![
            PacketKind::LobbyState.spec_code(),
            if l.game_started { 1u8 } else { 0u8 },
            l.your_team,
            l.team1_count,
            l.team2_count,
        ],
        PacketView::Disconnect => seq![PacketKind::Disconnect.spec_code()],
        PacketView::Ping(t) => seq![PacketKind::Ping.spec_code()] + be32(t),
        PacketView::Pong(t) => seq![PacketKind::Pong.spec_code()] + be32(t),
    }
}

// ── Reading ──────────────────────────────────────────────────────────────────

/// Outcome of reading something at a position: the value and the position
/// just after it, or the error.
pub type Parsed<T> = Result<(T, int), DecodeError>;

/// Whether `b` holds `n` bytes from position `pos` on.
pub open spec fn fits(b: Seq<u8>, pos: int, n: int) -> bool {
    0 <= pos && pos + n <= b.len()
}

pub open spec fn eof<T>() -> Parsed<T> {
    Err(DecodeError::UnexpectedEof)
}

pub open spec fn parse_self(b: Seq<u8>, pos: int) -> Parsed<SelfState> {
    if fits(b, pos, 18) {
        Ok(
            (
                SelfState {
                    health: b[pos],
                    ammo: b[pos + 1],
                    reload_progress: b[pos + 2],
                    movement_state: MovementState(b[pos + 3]),
                    x: u32_at(b, pos + 4),
                    y: u32_at(b, pos + 8),
                    rotation: u16_at(b, pos + 12),
                    aim_cone_half_angle: u32_at(b, pos + 14),
                },
                pos + 18,
            ),
        )
    } else {
        eof()
    }
}

pub open spec fn parse_player(b: Seq<u8>, pos: int) -> Parsed<PlayerState> {
    if fits(b, pos, 15) {
        Ok(
            (
                PlayerState {
                    id: u16_at(b, pos),
                    x: u32_at(b, pos + 2),
                    y: u32_at(b, pos + 6),
                    rotation: u16_at(b, pos + 10),
                    movement_state: MovementState(b[pos + 12]),
                    weapon: b[pos + 13],
                    team: b[pos + 14],
                },
                pos + 15,
            ),
        )
    } else {
        eof()
    }
}

pub open spec fn parse_bullet(b: Seq<u8>, pos: int) -> Parsed<BulletEvent> {
    if fits(b, pos, 21) {
        Ok(
            (
                BulletEvent {
                    shooter_id: u16_at(b, pos),
                    from_x: u32_at(b, pos + 2),
                    from_y: u32_at(b, pos + 6),
                    to_x: u32_at(b, pos + 10),
                    to_y: u32_at(b, pos + 14),
                    hit_player_id: u16_at(b, pos + 18),
                    shooter_team: b[pos + 20],
                },
                pos + 21,
            ),
        )
    } else {
        eof()
    }
}

/// A sound entry: its kind byte is checked before the rest is read.
pub open spec fn parse_sound(b: Seq<u8>, pos: int) -> Parsed<SoundEvent> {
    if !fits(b, pos, 1) {
        eof()
    } else {
        match SoundKind::spec_from_u8(b[pos]) {
            None => Err(DecodeError::InvalidField("sound_kind")),
            Some(kind) => if fits(b, pos, 10) {
                Ok(
                    (
                        SoundEvent {
                            kind,
                            x: u32_at(b, pos + 1),
                            y: u32_at(b, pos + 5),
                            intensity: b[pos + 9],
                        },
                        pos + 10,
                    ),
                )
            } else {
                eof()
            },
        }
    }
}

pub open spec fn parse_teammate(b: Seq<u8>, pos: int) -> Parsed<TeammateView> {
    if fits(b, pos, 22) {
        Ok(
            (
                TeammateView {
                    x: u32_at(b, pos),
                    y: u32_at(b, pos + 4),
                    rotation: u16_at(b, pos + 8),
                    sight_range: u32_at(b, pos + 10),
                    sight_half_angle: u32_at(b, pos + 14),
                    sight_circle_radius: u32_at(b, pos + 18),
                },
                pos + 22,
            ),
        )
    } else {
        eof()
    }
}

pub open spec fn parse_match(b: Seq<u8>, pos: int) -> Parsed<MatchState> {
    if fits(b, pos, 4) {
        Ok(
            (
                MatchState {
                    timer: u16_at(b, pos),
                    score_team1: b[pos + 2],
                    score_team2: b[pos + 3],
                },
                pos + 4,
            ),
        )
    } else {
        eof()
    }
}

pub open spec fn player_parser() -> spec_fn(Seq<u8>, int) -> Parsed<PlayerState> {
    |b: Seq<u8>, p: int| parse_player(b, p)
}

pub open spec fn bullet_parser() -> spec_fn(Seq<u8>, int) -> Parsed<BulletEvent> {
    |b: Seq<u8>, p: int| parse_bullet(b, p)
}

pub open spec fn sound_parser() -> spec_fn(Seq<u8>, int) -> Parsed<SoundEvent> {
    |b: Seq<u8>, p: int| parse_sound(b, p)
}

pub open spec fn teammate_parser() -> spec_fn(Seq<u8>, int) -> Parsed<TeammateView> {
    |b: Seq<u8>, p: int| parse_teammate(b, p)
}

/// `n` entries read one after another from `pos`; the first failure wins.
pub open spec fn parse_n<T>(
    b: Seq<u8>,
    pos: int,
    n: nat,
    item: spec_fn(Seq<u8>, int) -> Parsed<T>,
) -> Parsed<Seq<T>>
    decreases n,
{
    if n == 0 {
        Ok((Seq::empty(), pos))
    } else {
        match parse_n(b, pos, (n - 1) as nat, item) {
            Err(e) => Err(e),
            Ok((xs, p)) => match item(b, p) {
                Err(e) => Err(e),
                Ok((x, q)) => Ok((xs.push(x), q)),
            },
        }
    }
}

/// A counted list: the count byte, then that many entries.
pub open spec fn parse_list<T>(
    b: Seq<u8>,
    pos: int,
    item: spec_fn(Seq<u8>, int) -> Parsed<T>,
) -> Parsed<Seq<T>> {
    if fits(b, pos, 1) {
        parse_n(b, pos + 1, b[pos] as nat, item)
    } else {
        eof()
    }
}

/// The lists and match state that follow the fixed 26-byte head of a snapshot.
pub open spec fn parse_snapshot_tail(
    b: Seq<u8>,
    pos: int,
    tick: u32,
    timestamp: u32,
    me: SelfState,
) -> Parsed<ServerPacketView> {
    match parse_list(b, pos, player_parser()) {
        Err(e) => Err(e),
        Ok((players, p1)) => match parse_list(b, p1, bullet_parser()) {
            Err(e) => Err(e),
            Ok((bullets, p2)) => match parse_list(b, p2, sound_parser()) {
                Err(e) => Err(e),
                Ok((sounds, p3)) => match parse_list(b, p3, teammate_parser()) {
                    Err(e) => Err(e),
                    Ok((teammate_views, p4)) => match parse_match(b, p4) {
                        Err(e) => Err(e),
                        Ok((match_state, p5)) => Ok(
                            (
                                ServerPacketView {
                                    tick,
                                    timestamp,
                                    me,
                                    players,
                                    bullets,
                                    sounds,
                                    teammate_views,
                                    match_state,
                                },
                                p5,
                            ),
                        ),
                    },
                },
            },
        },
    }
}

pub open spec fn parse_snapshot(b: Seq<u8>, pos: int) -> Parsed<ServerPacketView> {
    if !fits(b, pos, 8) {
        eof()
    } else {
        match parse_self(b, pos + 8) {
            Err(e) => Err(e),
            Ok((me, p)) => parse_snapshot_tail(b, p, u32_at(b, pos), u32_at(b, pos + 4), me),
        }
    }
}

/// What decoding `b` yields: the packet, or the first error met when reading
/// it front to back.  Bytes after the packet are ignored.
pub open spec fn spec_decode(b: Seq<u8>) -> Result<PacketView, DecodeError> {
    if b.len() == 0 {
        Err(DecodeError::UnexpectedEof)
    } else {
        match PacketKind::spec_from_u8(b[0]) {
            None => Err(DecodeError::UnknownKind(b[0])),
            Some(kind) => match kind {
                PacketKind::ConnectRequest => if fits(b, 1, 17) {
                    Ok(PacketView::ConnectRequest { version: b[1], name: b.subrange(2, 18) })
                } else {
                    Err(DecodeError::UnexpectedEof)
                },
                PacketKind::ConnectAck => if !fits(b, 1, 1) {
                    Err(DecodeError::UnexpectedEof)
                } else {
                    match ConnectResult::spec_from_u8(b[1]) {
                        None => Err(DecodeError::InvalidField("result")),
                        Some(result) => if fits(b, 1, 8) {
                            Ok(
                                PacketView::ConnectAck(
                                    ConnectAck {
                                        result,
                                        player_id: u16_at(b, 2),
                                        tick_rate: b[4],
                                        server_time: u32_at(b, 5),
                                    },
                                ),
                            )
                        } else {
                            Err(DecodeError::UnexpectedEof)
                        },
                    }
                },
                PacketKind::ClientInput => if fits(b, 1, 11) {
                    Ok(
                        PacketView::ClientInput(
                            ClientPacket {
                                sequence: u16_at(b, 1),
                                timestamp: u32_at(b, 3),
                                movement_x: byte_i8(b[7]),
                                movement_y: byte_i8(b[8]),
                                rotation: u16_at(b, 9),
                                flags: InputFlags(b[11]),
                            },
                        ),
                    )
                } else {
                    Err(DecodeError::UnexpectedEof)
                },
                PacketKind::ServerSnapshot => match parse_snapshot(b, 1) {
                    Err(e) => Err(e),
                    Ok((s, _)) => Ok(PacketView::ServerSnapshot(s)),
                },
                PacketKind::LobbyCommand => if !fits(b, 1, 1) {
                    Err(DecodeError::UnexpectedEof)
                } else {
                    match LobbyCommandKind::spec_from_u8(b[1]) {
                        None => Err(DecodeError::InvalidField("lobby_command_kind")),
                        Some(kind) => if fits(b, 1, 2) {
                            Ok(PacketView::LobbyCommand(LobbyCommand { kind, team: b[2] }))
                        } else {
                            Err(DecodeError::UnexpectedEof)
                        },
                    }
                },
                PacketKind::LobbyState => if fits(b, 1, 4) {
                    Ok(
                        PacketView::LobbyState(
                            LobbyState {
                                game_started: b[1] != 0,
                                your_team: b[2],
                                team1_count: b[3],
                                team2_count: b[4],
                            },
                        ),
                    )
                } else {
                    Err(DecodeError::UnexpectedEof)
                },
                PacketKind::Disconnect => Ok(PacketView::Disconnect),
                PacketKind::Ping => if fits(b, 1, 4) {
                    Ok(PacketView::Ping(u32_at(b, 1)))
                } else {
                    Err(DecodeError::UnexpectedEof)
                },
                PacketKind::Pong => if fits(b, 1, 4) {
                    Ok(PacketView::Pong(u32_at(b, 1)))
                } else {
                    Err(DecodeError::UnexpectedEof)
                },
            },
        }
    }
}

} // verus!

verus! {

/// Encoding one more entry of a list appends that entry's encoding.
pub proof fn lemma_enc_all_take_step<T>(xs: Seq<T>, i: int, f: spec_fn(T) -> Seq<u8>)
    requires
        0 <= i < xs.len(),
    ensures
        enc_all(xs.take(i + 1), f) == enc_all(xs.take(i), f) + f(xs[i]),
{
    assert(xs.take(i + 1).drop_last() =~= xs.take(i));
    assert(xs.take(i + 1).last() == xs[i]);
}

} // verus!

verus! {

/// Once reading a run of entries has failed, reading more entries fails
/// with the same error.
pub proof fn lemma_parse_n_err_stable<T>(
    b: Seq<u8>,
    pos: int,
    i: nat,
    n: nat,
    item: spec_fn(Seq<u8>, int) -> Parsed<T>,
)
    requires
        i <= n,
        parse_n(b, pos, i, item) is Err,
    ensures
        parse_n(b, pos, n, item) == parse_n(b, pos, i, item),
    decreases n,
{
    if n > i {
        lemma_parse_n_err_stable(b, pos, i, (n - 1) as nat, item);
    }
}

} // verus!
