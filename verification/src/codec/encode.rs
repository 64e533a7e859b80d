//! Serialisation of packets.

use vstd::prelude::*;
use crate::proto::handshake::{AnyPacket, PacketKind};
use crate::proto::lobby::{LobbyCommand, LobbyState};
use crate::proto::server::{
    BulletEvent, PlayerState, SelfState, ServerPacket, SoundEvent, TeammateView,
};
use super::io::BufWriter;
use super::wire::{
    bullet_enc, enc_all, enc_bullet, enc_player, enc_self, enc_snapshot, enc_sound, enc_teammate,
    enc_list, encoding, lemma_enc_all_take_step, player_enc, sound_enc, teammate_enc, wire_count,
    MAX_LIST_LEN,
};

verus! {

/// Serialise `packet` into a byte vector ready for the socket layer.
/// The first byte is always the packet kind discriminant; at most 255
/// entries of each snapshot list are written.
pub fn encode(packet: &AnyPacket) -> (r: Vec<u8>)
    ensures
        r@ == encoding(packet@),
{
    let mut w = BufWriter::new();
    match packet {
        AnyPacket::ConnectRequest(p) => {
            w.u8(PacketKind::ConnectRequest.code());
            w.u8(p.version);
            let name: &[u8] = vstd::array::array_as_slice(&p.name);
            w.bytes(name);
        },
        AnyPacket::ConnectAck(p) => {
            w.u8(PacketKind::ConnectAck.code());
            w.u8(p.result.code());
            w.u16(p.player_id);
            w.u8(p.tick_rate);
            w.u32(p.server_time);
        },
        AnyPacket::ClientInput(p) => {
            w.u8(PacketKind::ClientInput.code());
            w.u16(p.sequence);
            w.u32(p.timestamp);
            w.i8(p.movement_x);
            w.i8(p.movement_y);
            w.u16(p.rotation);
            w.u8(p.flags.0);
        },
        AnyPacket::ServerSnapshot(p) => encode_snapshot(&mut w, p),
        AnyPacket::LobbyCommand(p) => encode_lobby_command(&mut w, p),
        AnyPacket::LobbyState(p) => encode_lobby_state(&mut w, p),
        AnyPacket::Disconnect => {
            w.u8(PacketKind::Disconnect.code());
        },
        AnyPacket::Ping(ts) => {
            w.u8(PacketKind::Ping.code());
            w.u32(*ts);
        },
        AnyPacket::Pong(ts) => {
            w.u8(PacketKind::Pong.code());
            w.u32(*ts);
        },
    }
    assert(w@ =~= encoding(packet@));
    w.finish()
}

fn encode_self(w: &mut BufWriter, s: &SelfState)
    ensures
        final(w)@ == old(w)@ + enc_self(*s),
{
    w.u8(s.health);
    w.u8(s.ammo);
    w.u8(s.reload_progress);
    w.u8(s.movement_state.0);
    w.u32(s.x);
    w.u32(s.y);
    w.u16(s.rotation);
    w.u32(s.aim_cone_half_angle);
    assert(w@ =~= old(w)@ + enc_self(*s));
}

fn encode_player(w: &mut BufWriter, p: &PlayerState)
    ensures
        final(w)@ == old(w)@ + enc_player(*p),
{
    w.u16(p.id);
    w.u32(p.x);
    w.u32(p.y);
    w.u16(p.rotation);
    w.u8(p.movement_state.0);
    w.u8(p.weapon);
    w.u8(p.team);
    assert(w@ =~= old(w)@ + enc_player(*p));
}

fn encode_bullet(w: &mut BufWriter, b: &BulletEvent)
    ensures
        final(w)@ == old(w)@ + enc_bullet(*b),
{
    w.u16(b.shooter_id);
    w.u32(b.from_x);
    w.u32(b.from_y);
    w.u32(b.to_x);
    w.u32(b.to_y);
    w.u16(b.hit_player_id);
    w.u8(b.shooter_team);
    assert(w@ =~= old(w)@ + enc_bullet(*b));
}

fn encode_sound(w: &mut BufWriter, s: &SoundEvent)
    ensures
        final(w)@ == old(w)@ + enc_sound(*s),
{
    w.u8(s.kind.code());
    w.u32(s.x);
    w.u32(s.y);
    w.u8(s.intensity);
    assert(w@ =~= old(w)@ + enc_sound(*s));
}

fn encode_teammate(w: &mut BufWriter, t: &TeammateView)
    ensures
        final(w)@ == old(w)@ + enc_teammate(*t),
{
    w.u32(t.x);
    w.u32(t.y);
    w.u16(t.rotation);
    w.u32(t.sight_range);
    w.u32(t.sight_half_angle);
    w.u32(t.sight_circle_radius);
    assert(w@ =~= old(w)@ + enc_teammate(*t));
}

/// Number of entries of a list of length `len` that go on the wire.
fn wire_len(len: usize) -> (r: usize)
    ensures
        r == wire_count(len as nat),
{
    if len <= MAX_LIST_LEN {
        len
    } else {
        MAX_LIST_LEN
    }
}

fn encode_snapshot(w: &mut BufWriter, p: &ServerPacket)
    ensures
        final(w)@ == old(w)@ + seq![PacketKind::ServerSnapshot.spec_code()] + enc_snapshot(p@),
{
    w.u8(PacketKind::ServerSnapshot.code());
    w.u32(p.tick);
    w.u32(p.timestamp);
    encode_self(w, &p.me);
    encode_player_list(w, &p.players);
    encode_bullet_list(w, &p.bullets);
    encode_sound_list(w, &p.sounds);
    encode_teammate_list(w, &p.teammate_views);
    w.u16(p.match_state.timer);
    w.u8(p.match_state.score_team1);
    w.u8(p.match_state.score_team2);
    assert(w@ =~= old(w)@ + seq![PacketKind::ServerSnapshot.spec_code()] + enc_snapshot(p@));
}

fn encode_player_list(w: &mut BufWriter, xs: &Vec<PlayerState>)
    ensures
        final(w)@ == old(w)@ + enc_list(xs@, player_enc()),
{
    let n = wire_len(xs.len());
    w.u8(n as u8);
    let ghost head = old(w)@ + seq![n as u8];
    let mut i: usize = 0;
    while i < n
        invariant
            n == wire_count(xs@.len()),
            n <= xs@.len(),
            i <= n,
            w@ == head + enc_all(xs@.take(i as int), player_enc()),
        decreases n - i,
    {
        proof {
            lemma_enc_all_take_step(xs@, i as int, player_enc());
        }
        encode_player(w, &xs[i]);
        i = i + 1;
    }
    assert(w@ =~= old(w)@ + enc_list(xs@, player_enc()));
}

fn encode_bullet_list(w: &mut BufWriter, xs: &Vec<BulletEvent>)
    ensures
        final(w)@ == old(w)@ + enc_list(xs@, bullet_enc()),
{
    let n = wire_len(xs.len());
    w.u8(n as u8);
    let ghost head = old(w)@ + seq![n as u8];
    let mut i: usize = 0;
    while i < n
        invariant
            n == wire_count(xs@.len()),
            n <= xs@.len(),
            i <= n,
            w@ == head + enc_all(xs@.take(i as int), bullet_enc()),
        decreases n - i,
    {
        proof {
            lemma_enc_all_take_step(xs@, i as int, bullet_enc());
        }
        encode_bullet(w, &xs[i]);
        i = i + 1;
    }
    assert(w@ =~= old(w)@ + enc_list(xs@, bullet_enc()));
}

fn encode_sound_list(w: &mut BufWriter, xs: &Vec<SoundEvent>)
    ensures
        final(w)@ == old(w)@ + enc_list(xs@, sound_enc()),
{
    let n = wire_len(xs.len());
    w.u8(n as u8);
    let ghost head = old(w)@ + seq![n as u8];
    let mut i: usize = 0;
    while i < n
        invariant
            n == wire_count(xs@.len()),
            n <= xs@.len(),
            i <= n,
            w@ == head + enc_all(xs@.take(i as int), sound_enc()),
        decreases n - i,
    {
        proof {
            lemma_enc_all_take_step(xs@, i as int, sound_enc());
        }
        encode_sound(w, &xs[i]);
        i = i + 1;
    }
    assert(w@ =~= old(w)@ + enc_list(xs@, sound_enc()));
}

fn encode_teammate_list(w: &mut BufWriter, xs: &Vec<TeammateView>)
    ensures
        final(w)@ == old(w)@ + enc_list(xs@, teammate_enc()),
{
    let n = wire_len(xs.len());
    w.u8(n as u8);
    let ghost head = old(w)@ + seq![n as u8];
    let mut i: usize = 0;
    while i < n
        invariant
            n == wire_count(xs@.len()),
            n <= xs@.len(),
            i <= n,
            w@ == head + enc_all(xs@.take(i as int), teammate_enc()),
        decreases n - i,
    {
        proof {
            lemma_enc_all_take_step(xs@, i as int, teammate_enc());
        }
        encode_teammate(w, &xs[i]);
        i = i + 1;
    }
    assert(w@ =~= old(w)@ + enc_list(xs@, teammate_enc()));
}

fn encode_lobby_command(w: &mut BufWriter, p: &LobbyCommand)
    ensures
        final(w)@ == old(w)@ + seq![
            PacketKind::LobbyCommand.spec_code(),
            p.kind.spec_code(),
            p.team,
        ],
{
    w.u8(PacketKind::LobbyCommand.code());
    w.u8(p.kind.code());
    w.u8(p.team);
    assert(w@ =~= old(w)@ + seq![PacketKind::LobbyCommand.spec_code(), p.kind.spec_code(), p.team]);
}

fn encode_lobby_state(w: &mut BufWriter, p: &LobbyState)
    ensures
        final(w)@ == old(w)@ + seq![
            PacketKind::LobbyState.spec_code(),
            if p.game_started { 1u8 } else { 0u8 },
            p.your_team,
            p.team1_count,
            p.team2_count,
        ],
{
    w.u8(PacketKind::LobbyState.code());
    w.u8(if p.game_started { 1 } else { 0 });
    w.u8(p.your_team);
    w.u8(p.team1_count);
    w.u8(p.team2_count);
    assert(w@ =~= old(w)@ + seq![
        PacketKind::LobbyState.spec_code(),
        if p.game_started { 1u8 } else { 0u8 },
        p.your_team,
        p.team1_count,
        p.team2_count,
    ]);
}

} // verus!
