//! Parsing of packets.

use vstd::prelude::*;
use crate::proto::client::{ClientPacket, InputFlags};
use crate::proto::handshake::{AnyPacket, ConnectAck, ConnectRequest, ConnectResult, PacketKind};
use crate::proto::lobby::{LobbyCommand, LobbyCommandKind, LobbyState};
use crate::proto::server::{
    BulletEvent, MatchState, MovementState, PlayerState, SelfState, ServerPacket, SoundEvent,
    SoundKind, TeammateView,
};
use super::error::DecodeError;
use super::io::BufReader;
use super::wire::{
    bullet_parser, lemma_parse_n_err_stable, parse_bullet, parse_list, parse_match, parse_n,
    parse_player, parse_self, parse_snapshot, parse_snapshot_tail, parse_sound, parse_teammate,
    player_parser, sound_parser, spec_decode, teammate_parser, Parsed,
};

verus! {

/// Parse a raw datagram buffer into an [`AnyPacket`].
///
/// Returns `UnknownKind` for unrecognised discriminants, `InvalidField` for
/// an out-of-range result, lobby command kind or sound kind, and
/// `UnexpectedEof` when the buffer is shorter than expected.
pub fn decode(buf: &[u8]) -> (r: Result<AnyPacket, DecodeError>)
    ensures
        match r {
            Ok(p) => spec_decode(buf@) == Ok::<_, DecodeError>(p@),
            Err(e) => spec_decode(buf@) == Err::<crate::proto::handshake::PacketView, _>(e),
        },
{
    let mut r = BufReader::new(buf);
    let kind_byte = r.u8()?;
    let kind = match PacketKind::from_u8(kind_byte) {
        Some(k) => k,
        None => return Err(DecodeError::UnknownKind(kind_byte)),
    };
    let packet = match kind {
        PacketKind::ConnectRequest => {
            let version = r.u8()?;
            let bytes = r.bytes(16)?;
            let mut name = [0u8; 16];
            let mut i: usize = 0;
            while i < 16
                invariant
                    bytes@.len() == 16,
                    0 <= i <= 16,
                    name@.len() == 16,
                    forall|j: int| 0 <= j < i ==> name@[j] == bytes@[j],
                decreases 16 - i,
            {
                name.set(i, bytes[i]);
                i = i + 1;
            }
            assert(name@ =~= buf@.subrange(2, 18));
            let p = AnyPacket::ConnectRequest(ConnectRequest { version, name });
            assert(spec_decode(buf@) == Ok::<_, DecodeError>(p@));
            p
        },
        PacketKind::ConnectAck => {
            let result_byte = r.u8()?;
            let result = match ConnectResult::from_u8(result_byte) {
                Some(res) => res,
                None => return Err(DecodeError::InvalidField("result")),
            };
            let player_id = r.u16()?;
            let tick_rate = r.u8()?;
            let server_time = r.u32()?;
            let p = AnyPacket::ConnectAck(ConnectAck { result, player_id, tick_rate, server_time });
            assert(spec_decode(buf@) == Ok::<_, DecodeError>(p@));
            p
        },
        PacketKind::ClientInput => {
            let sequence = r.u16()?;
            let timestamp = r.u32()?;
            let movement_x = r.i8()?;
            let movement_y = r.i8()?;
            let rotation = r.u16()?;
            let flags = InputFlags(r.u8()?);
            let p = AnyPacket::ClientInput(
                ClientPacket { sequence, timestamp, movement_x, movement_y, rotation, flags },
            );
            assert(spec_decode(buf@) == Ok::<_, DecodeError>(p@));
            p
        },
        PacketKind::ServerSnapshot => {
            let p = AnyPacket::ServerSnapshot(decode_snapshot(&mut r)?);
            assert(spec_decode(buf@) == Ok::<_, DecodeError>(p@));
            p
        },
        PacketKind::LobbyCommand => {
            let kind_byte = r.u8()?;
            let kind = match LobbyCommandKind::from_u8(kind_byte) {
                Some(k) => k,
                None => return Err(DecodeError::InvalidField("lobby_command_kind")),
            };
            let team = r.u8()?;
            let p = AnyPacket::LobbyCommand(LobbyCommand { kind, team });
            assert(spec_decode(buf@) == Ok::<_, DecodeError>(p@));
            p
        },
        PacketKind::LobbyState => {
            let started = r.u8()?;
            let your_team = r.u8()?;
            let team1_count = r.u8()?;
            let team2_count = r.u8()?;
            let p = AnyPacket::LobbyState(
                LobbyState { game_started: started != 0, your_team, team1_count, team2_count },
            );
            assert(spec_decode(buf@) == Ok::<_, DecodeError>(p@));
            p
        },
        PacketKind::Disconnect => AnyPacket::Disconnect,
        PacketKind::Ping => AnyPacket::Ping(r.u32()?),
        PacketKind::Pong => AnyPacket::Pong(r.u32()?),
    };
    Ok(packet)
}

fn read_player_list(r: &mut BufReader) -> (res: Result<Vec<PlayerState>, DecodeError>)
    requires
        old(r).wf(),
    ensures
        final(r).wf(),
        final(r).buf == old(r).buf,
        match parse_list(old(r).buf@, old(r).pos as int, player_parser()) {
            Ok((xs, q)) => (res matches Ok(v) && v@ == xs && final(r).pos == q),
            Err(e) => res == Err::<Vec<PlayerState>, _>(e),
        },
{
    let count = r.u8()?;
    let ghost b = r.buf@;
    let ghost buf0 = r.buf;
    let ghost start = r.pos as int;
    assert(start == old(r).pos + 1 && count == b[start - 1]);
    let mut xs: Vec<PlayerState> = Vec::with_capacity(count as usize);
    let mut i: u8 = 0;
    while i < count
        invariant
            r.wf(),
            r.buf == buf0,
            buf0 == old(r).buf,
            b == buf0@,
            start == old(r).pos + 1,
            start <= b.len(),
            count == b[start - 1],
            i <= count,
            parse_n(b, start, i as nat, player_parser()) == Ok::<_, DecodeError>((xs@, r.pos as int)),
        decreases count - i,
    {
        let ghost before = r.pos as int;
        let x = match read_player(r) {
            Ok(x) => x,
            Err(e) => {
                proof {
                    assert(parse_n(b, start, (i + 1) as nat, player_parser()) == Err::<(Seq<PlayerState>, int), _>(e));
                    lemma_parse_n_err_stable(b, start, (i + 1) as nat, count as nat, player_parser());
                }
                return Err(e);
            },
        };
        xs.push(x);
        i = i + 1;
    }
    Ok(xs)
}

fn read_bullet_list(r: &mut BufReader) -> (res: Result<Vec<BulletEvent>, DecodeError>)
    requires
        old(r).wf(),
    ensures
        final(r).wf(),
        final(r).buf == old(r).buf,
        match parse_list(old(r).buf@, old(r).pos as int, bullet_parser()) {
            Ok((xs, q)) => (res matches Ok(v) && v@ == xs && final(r).pos == q),
            Err(e) => res == Err::<Vec<BulletEvent>, _>(e),
        },
{
    let count = r.u8()?;
    let ghost b = r.buf@;
    let ghost buf0 = r.buf;
    let ghost start = r.pos as int;
    assert(start == old(r).pos + 1 && count == b[start - 1]);
    let mut xs: Vec<BulletEvent> = Vec::with_capacity(count as usize);
    let mut i: u8 = 0;
    while i < count
        invariant
            r.wf(),
            r.buf == buf0,
            buf0 == old(r).buf,
            b == buf0@,
            start == old(r).pos + 1,
            start <= b.len(),
            count == b[start - 1],
            i <= count,
            parse_n(b, start, i as nat, bullet_parser()) == Ok::<_, DecodeError>((xs@, r.pos as int)),
        decreases count - i,
    {
        let ghost before = r.pos as int;
        let x = match read_bullet(r) {
            Ok(x) => x,
            Err(e) => {
                proof {
                    assert(parse_n(b, start, (i + 1) as nat, bullet_parser()) == Err::<(Seq<BulletEvent>, int), _>(e));
                    lemma_parse_n_err_stable(b, start, (i + 1) as nat, count as nat, bullet_parser());
                }
                return Err(e);
            },
        };
        xs.push(x);
        i = i + 1;
    }
    Ok(xs)
}

fn read_sound_list(r: &mut BufReader) -> (res: Result<Vec<SoundEvent>, DecodeError>)
    requires
        old(r).wf(),
    ensures
        final(r).wf(),
        final(r).buf == old(r).buf,
        match parse_list(old(r).buf@, old(r).pos as int, sound_parser()) {
            Ok((xs, q)) => (res matches Ok(v) && v@ == xs && final(r).pos == q),
            Err(e) => res == Err::<Vec<SoundEvent>, _>(e),
        },
{
    let count = r.u8()?;
    let ghost b = r.buf@;
    let ghost buf0 = r.buf;
    let ghost start = r.pos as int;
    assert(start == old(r).pos + 1 && count == b[start - 1]);
    let mut xs: Vec<SoundEvent> = Vec::with_capacity(count as usize);
    let mut i: u8 = 0;
    while i < count
        invariant
            r.wf(),
            r.buf == buf0,
            buf0 == old(r).buf,
            b == buf0@,
            start == old(r).pos + 1,
            start <= b.len(),
            count == b[start - 1],
            i <= count,
            parse_n(b, start, i as nat, sound_parser()) == Ok::<_, DecodeError>((xs@, r.pos as int)),
        decreases count - i,
    {
        let ghost before = r.pos as int;
        let x = match read_sound(r) {
            Ok(x) => x,
            Err(e) => {
                proof {
                    assert(parse_n(b, start, (i + 1) as nat, sound_parser()) == Err::<(Seq<SoundEvent>, int), _>(e));
                    lemma_parse_n_err_stable(b, start, (i + 1) as nat, count as nat, sound_parser());
                }
                return Err(e);
            },
        };
        xs.push(x);
        i = i + 1;
    }
    Ok(xs)
}

fn read_teammate_list(r: &mut BufReader) -> (res: Result<Vec<TeammateView>, DecodeError>)
    requires
        old(r).wf(),
    ensures
        final(r).wf(),
        final(r).buf == old(r).buf,
        match parse_list(old(r).buf@, old(r).pos as int, teammate_parser()) {
            Ok((xs, q)) => (res matches Ok(v) && v@ == xs && final(r).pos == q),
            Err(e) => res == Err::<Vec<TeammateView>, _>(e),
        },
{
    let count = r.u8()?;
    let ghost b = r.buf@;
    let ghost buf0 = r.buf;
    let ghost start = r.pos as int;
    assert(start == old(r).pos + 1 && count == b[start - 1]);
    let mut xs: Vec<TeammateView> = Vec::with_capacity(count as usize);
    let mut i: u8 = 0;
    while i < count
        invariant
            r.wf(),
            r.buf == buf0,
            buf0 == old(r).buf,
            b == buf0@,
            start == old(r).pos + 1,
            start <= b.len(),
            count == b[start - 1],
            i <= count,
            parse_n(b, start, i as nat, teammate_parser()) == Ok::<_, DecodeError>((xs@, r.pos as int)),
        decreases count - i,
    {
        let ghost before = r.pos as int;
        let x = match read_teammate(r) {
            Ok(x) => x,
            Err(e) => {
                proof {
                    assert(parse_n(b, start, (i + 1) as nat, teammate_parser()) == Err::<(Seq<TeammateView>, int), _>(e));
                    lemma_parse_n_err_stable(b, start, (i + 1) as nat, count as nat, teammate_parser());
                }
                return Err(e);
            },
        };
        xs.push(x);
        i = i + 1;
    }
    Ok(xs)
}

fn decode_snapshot(r: &mut BufReader) -> (res: Result<ServerPacket, DecodeError>)
    requires
        old(r).wf(),
    ensures
        final(r).wf(),
        final(r).buf == old(r).buf,
        match parse_snapshot(old(r).buf@, old(r).pos as int) {
            Ok((s, q)) => (res matches Ok(v) && v@ == s && final(r).pos == q),
            Err(e) => res == Err::<ServerPacket, _>(e),
        },
{
    let tick = r.u32()?;
    let timestamp = r.u32()?;
    let me = read_self(r)?;
    let players = read_player_list(r)?;
    let bullets = read_bullet_list(r)?;
    let sounds = read_sound_list(r)?;
    let teammate_views = read_teammate_list(r)?;
    let match_state = read_match(r)?;
    Ok(ServerPacket { tick, timestamp, me, players, bullets, sounds, teammate_views, match_state })
}

fn read_self(r: &mut BufReader) -> (res: Result<SelfState, DecodeError>)
    requires
        old(r).wf(),
    ensures
        final(r).wf(),
        final(r).buf == old(r).buf,
        match parse_self(old(r).buf@, old(r).pos as int) {
            Ok((x, q)) => res == Ok::<_, DecodeError>(x) && final(r).pos == q,
            Err(e) => res == Err::<SelfState, _>(e),
        },
{
    let health = r.u8()?;
    let ammo = r.u8()?;
    let reload_progress = r.u8()?;
    let movement_state = MovementState(r.u8()?);
    let x = r.u32()?;
    let y = r.u32()?;
    let rotation = r.u16()?;
    let aim_cone_half_angle = r.u32()?;
    Ok(
        SelfState {
            health,
            ammo,
            reload_progress,
            movement_state,
            x,
            y,
            rotation,
            aim_cone_half_angle,
        },
    )
}

fn read_player(r: &mut BufReader) -> (res: Result<PlayerState, DecodeError>)
    requires
        old(r).wf(),
    ensures
        final(r).wf(),
        final(r).buf == old(r).buf,
        match parse_player(old(r).buf@, old(r).pos as int) {
            Ok((x, q)) => res == Ok::<_, DecodeError>(x) && final(r).pos == q,
            Err(e) => res == Err::<PlayerState, _>(e),
        },
{
    let id = r.u16()?;
    let x = r.u32()?;
    let y = r.u32()?;
    let rotation = r.u16()?;
    let movement_state = MovementState(r.u8()?);
    let weapon = r.u8()?;
    let team = r.u8()?;
    Ok(PlayerState { id, x, y, rotation, movement_state, weapon, team })
}

fn read_bullet(r: &mut BufReader) -> (res: Result<BulletEvent, DecodeError>)
    requires
        old(r).wf(),
    ensures
        final(r).wf(),
        final(r).buf == old(r).buf,
        match parse_bullet(old(r).buf@, old(r).pos as int) {
            Ok((x, q)) => res == Ok::<_, DecodeError>(x) && final(r).pos == q,
            Err(e) => res == Err::<BulletEvent, _>(e),
        },
{
    let shooter_id = r.u16()?;
    let from_x = r.u32()?;
    let from_y = r.u32()?;
    let to_x = r.u32()?;
    let to_y = r.u32()?;
    let hit_player_id = r.u16()?;
    let shooter_team = r.u8()?;
    Ok(BulletEvent { shooter_id, from_x, from_y, to_x, to_y, hit_player_id, shooter_team })
}

fn read_sound(r: &mut BufReader) -> (res: Result<SoundEvent, DecodeError>)
    requires
        old(r).wf(),
    ensures
        final(r).wf(),
        final(r).buf == old(r).buf,
        match parse_sound(old(r).buf@, old(r).pos as int) {
            Ok((x, q)) => res == Ok::<_, DecodeError>(x) && final(r).pos == q,
            Err(e) => res == Err::<SoundEvent, _>(e),
        },
{
    let kind_byte = r.u8()?;
    let kind = match SoundKind::from_u8(kind_byte) {
        Some(k) => k,
        None => return Err(DecodeError::InvalidField("sound_kind")),
    };
    let x = r.u32()?;
    let y = r.u32()?;
    let intensity = r.u8()?;
    Ok(SoundEvent { kind, x, y, intensity })
}

fn read_teammate(r: &mut BufReader) -> (res: Result<TeammateView, DecodeError>)
    requires
        old(r).wf(),
    ensures
        final(r).wf(),
        final(r).buf == old(r).buf,
        match parse_teammate(old(r).buf@, old(r).pos as int) {
            Ok((x, q)) => res == Ok::<_, DecodeError>(x) && final(r).pos == q,
            Err(e) => res == Err::<TeammateView, _>(e),
        },
{
    let x = r.u32()?;
    let y = r.u32()?;
    let rotation = r.u16()?;
    let sight_range = r.u32()?;
    let sight_half_angle = r.u32()?;
    let sight_circle_radius = r.u32()?;
    Ok(TeammateView { x, y, rotation, sight_range, sight_half_angle, sight_circle_radius })
}

fn read_match(r: &mut BufReader) -> (res: Result<MatchState, DecodeError>)
    requires
        old(r).wf(),
    ensures
        final(r).wf(),
        final(r).buf == old(r).buf,
        match parse_match(old(r).buf@, old(r).pos as int) {
            Ok((x, q)) => res == Ok::<_, DecodeError>(x) && final(r).pos == q,
            Err(e) => res == Err::<MatchState, _>(e),
        },
{
    let timer = r.u16()?;
    let score_team1 = r.u8()?;
    let score_team2 = r.u8()?;
    Ok(MatchState { timer, score_team1, score_team2 })
}

} // verus!
