//! Laws of the codec: decoding the bytes of a packet gives the packet back.

use vstd::prelude::*;
use crate::proto::client::ClientPacket;
use crate::proto::handshake::{AnyPacket, ConnectAck, PacketView};
use crate::proto::server::{
    BulletEvent, MatchState, PlayerState, SelfState, ServerPacketView, SoundEvent, SoundKind,
    TeammateView,
};
use super::error::DecodeError;
use super::wire::{
    be16, be32, eof, bullet_enc, bullet_parser, byte_i8, enc_all, enc_bullet, enc_list, enc_match,
    enc_player, enc_self, enc_snapshot, enc_sound, enc_teammate, encoding, i8_byte, parse_bullet,
    parse_list, parse_match, parse_n, parse_player, parse_self, parse_snapshot, parse_snapshot_tail,
    parse_sound,
    parse_teammate, player_enc, player_parser, sound_enc, sound_parser, spec_decode, teammate_enc,
    teammate_parser, u16_at, u32_at, wire_count, Parsed,
};

verus! {

/// `b` holds the bytes `a` from position `pos` on.
pub open spec fn holds_at(b: Seq<u8>, pos: int, a: Seq<u8>) -> bool {
    &&& 0 <= pos
    &&& pos + a.len() <= b.len()
    &&& forall|k: int| 0 <= k < a.len() ==> b[pos + k] == #[trigger] a[k]
}

/// What a snapshot looks like after a trip over the wire: each list keeps
/// its first 255 entries.
pub open spec fn snapshot_on_wire(s: ServerPacketView) -> ServerPacketView {
    ServerPacketView {
        players: s.players.take(wire_count(s.players.len()) as int),
        bullets: s.bullets.take(wire_count(s.bullets.len()) as int),
        sounds: s.sounds.take(wire_count(s.sounds.len()) as int),
        teammate_views: s.teammate_views.take(wire_count(s.teammate_views.len()) as int),
        ..s
    }
}

/// What a packet looks like after a trip over the wire.
pub open spec fn packet_on_wire(p: PacketView) -> PacketView {
    match p {
        PacketView::ServerSnapshot(s) => PacketView::ServerSnapshot(snapshot_on_wire(s)),
        _ => p,
    }
}

/// A packet view that some [`AnyPacket`] has: a connect request's name is
/// 16 bytes long.
pub open spec fn packet_wf(p: PacketView) -> bool {
    p matches PacketView::ConnectRequest { name, .. } ==> name.len() == 16
}

proof fn lemma_holds_at_split(b: Seq<u8>, pos: int, a1: Seq<u8>, a2: Seq<u8>)
    requires
        holds_at(b, pos, a1 + a2),
    ensures
        holds_at(b, pos, a1),
        holds_at(b, pos + a1.len(), a2),
{
    assert forall|k: int| 0 <= k < a1.len() implies b[pos + k] == #[trigger] a1[k] by {
        assert((a1 + a2)[k] == a1[k]);
    }
    assert forall|k: int| 0 <= k < a2.len() implies b[pos + a1.len() + k] == #[trigger] a2[k] by {
        assert((a1 + a2)[a1.len() + k] == a2[k]);
    }
}

proof fn lemma_be16_read(b: Seq<u8>, pos: int, v: u16)
    requires
        holds_at(b, pos, be16(v)),
    ensures
        u16_at(b, pos) == v,
{
    assert(b[pos] == be16(v)[0]);
    assert(b[pos + 1] == be16(v)[1]);
}

proof fn lemma_be32_read(b: Seq<u8>, pos: int, v: u32)
    requires
        holds_at(b, pos, be32(v)),
    ensures
        u32_at(b, pos) == v,
{
    assert(b[pos] == be32(v)[0]);
    assert(b[pos + 1] == be32(v)[1]);
    assert(b[pos + 2] == be32(v)[2]);
    assert(b[pos + 3] == be32(v)[3]);
    let x = v as int;
    assert((x / 0x100_0000) * 0x100_0000 + ((x / 0x1_0000) % 256) * 0x1_0000 + ((x / 256) % 256)
        * 256 + x % 256 == x) by (nonlinear_arith)
        requires
            0 <= x < 0x1_0000_0000,
    ;
}

/// Reading a 16-bit value at `pos + off` where the encoding of a record sits.
proof fn lemma_be16_in(b: Seq<u8>, pos: int, pre: Seq<u8>, v: u16, post: Seq<u8>)
    requires
        holds_at(b, pos, pre + be16(v) + post),
    ensures
        u16_at(b, pos + pre.len()) == v,
{
    lemma_holds_at_split(b, pos, pre + be16(v), post);
    lemma_holds_at_split(b, pos, pre, be16(v));
    lemma_be16_read(b, pos + pre.len(), v);
}

proof fn lemma_be32_in(b: Seq<u8>, pos: int, pre: Seq<u8>, v: u32, post: Seq<u8>)
    requires
        holds_at(b, pos, pre + be32(v) + post),
    ensures
        u32_at(b, pos + pre.len()) == v,
{
    lemma_holds_at_split(b, pos, pre + be32(v), post);
    lemma_holds_at_split(b, pos, pre, be32(v));
    lemma_be32_read(b, pos + pre.len(), v);
}

proof fn lemma_player_read(b: Seq<u8>, pos: int, x: PlayerState)
    requires
        holds_at(b, pos, enc_player(x)),
    ensures
        parse_player(b, pos) == Ok::<_, DecodeError>((x, pos + 15)),
{
    let e = enc_player(x);
    let tail = seq![x.movement_state.0, x.weapon, x.team];
    assert(e == Seq::<u8>::empty() + be16(x.id) + (be32(x.x) + be32(x.y) + be16(x.rotation) + tail));
    lemma_be16_in(b, pos, Seq::empty(), x.id, be32(x.x) + be32(x.y) + be16(x.rotation) + tail);
    assert(e == be16(x.id) + be32(x.x) + (be32(x.y) + be16(x.rotation) + tail));
    lemma_be32_in(b, pos, be16(x.id), x.x, be32(x.y) + be16(x.rotation) + tail);
    assert(e == (be16(x.id) + be32(x.x)) + be32(x.y) + (be16(x.rotation) + tail));
    lemma_be32_in(b, pos, be16(x.id) + be32(x.x), x.y, be16(x.rotation) + tail);
    assert(e == (be16(x.id) + be32(x.x) + be32(x.y)) + be16(x.rotation) + tail);
    lemma_be16_in(b, pos, be16(x.id) + be32(x.x) + be32(x.y), x.rotation, tail);
    assert(b[pos + 12] == e[12]);
    assert(b[pos + 13] == e[13]);
    assert(b[pos + 14] == e[14]);
}

proof fn lemma_self_read(b: Seq<u8>, pos: int, x: SelfState)
    requires
        holds_at(b, pos, enc_self(x)),
    ensures
        parse_self(b, pos) == Ok::<_, DecodeError>((x, pos + 18)),
{
    let e = enc_self(x);
    let h = seq![x.health, x.ammo, x.reload_progress, x.movement_state.0];
    assert(e == h + be32(x.x) + (be32(x.y) + be16(x.rotation) + be32(x.aim_cone_half_angle)));
    lemma_be32_in(b, pos, h, x.x, be32(x.y) + be16(x.rotation) + be32(x.aim_cone_half_angle));
    assert(e == (h + be32(x.x)) + be32(x.y) + (be16(x.rotation) + be32(x.aim_cone_half_angle)));
    lemma_be32_in(b, pos, h + be32(x.x), x.y, be16(x.rotation) + be32(x.aim_cone_half_angle));
    assert(e == (h + be32(x.x) + be32(x.y)) + be16(x.rotation) + be32(x.aim_cone_half_angle));
    lemma_be16_in(b, pos, h + be32(x.x) + be32(x.y), x.rotation, be32(x.aim_cone_half_angle));
    assert(e == (h + be32(x.x) + be32(x.y) + be16(x.rotation)) + be32(x.aim_cone_half_angle)
        + Seq::<u8>::empty());
    lemma_be32_in(
        b,
        pos,
        h + be32(x.x) + be32(x.y) + be16(x.rotation),
        x.aim_cone_half_angle,
        Seq::empty(),
    );
    assert(b[pos] == e[0]);
    assert(b[pos + 1] == e[1]);
    assert(b[pos + 2] == e[2]);
    assert(b[pos + 3] == e[3]);
}

proof fn lemma_bullet_read(b: Seq<u8>, pos: int, x: BulletEvent)
    requires
        holds_at(b, pos, enc_bullet(x)),
    ensures
        parse_bullet(b, pos) == Ok::<_, DecodeError>((x, pos + 21)),
{
    let e = enc_bullet(x);
    let t = seq![x.shooter_team];
    let a0 = be16(x.shooter_id);
    let a1 = be32(x.from_x);
    let a2 = be32(x.from_y);
    let a3 = be32(x.to_x);
    let a4 = be32(x.to_y);
    let a5 = be16(x.hit_player_id);
    assert(e == Seq::<u8>::empty() + a0 + (a1 + a2 + a3 + a4 + a5 + t));
    lemma_be16_in(b, pos, Seq::empty(), x.shooter_id, a1 + a2 + a3 + a4 + a5 + t);
    assert(e == a0 + a1 + (a2 + a3 + a4 + a5 + t));
    lemma_be32_in(b, pos, a0, x.from_x, a2 + a3 + a4 + a5 + t);
    assert(e == (a0 + a1) + a2 + (a3 + a4 + a5 + t));
    lemma_be32_in(b, pos, a0 + a1, x.from_y, a3 + a4 + a5 + t);
    assert(e == (a0 + a1 + a2) + a3 + (a4 + a5 + t));
    lemma_be32_in(b, pos, a0 + a1 + a2, x.to_x, a4 + a5 + t);
    assert(e == (a0 + a1 + a2 + a3) + a4 + (a5 + t));
    lemma_be32_in(b, pos, a0 + a1 + a2 + a3, x.to_y, a5 + t);
    assert(e == (a0 + a1 + a2 + a3 + a4) + a5 + t);
    lemma_be16_in(b, pos, a0 + a1 + a2 + a3 + a4, x.hit_player_id, t);
    assert(b[pos + 20] == e[20]);
}

proof fn lemma_sound_read(b: Seq<u8>, pos: int, x: SoundEvent)
    requires
        holds_at(b, pos, enc_sound(x)),
    ensures
        parse_sound(b, pos) == Ok::<_, DecodeError>((x, pos + 10)),
{
    let e = enc_sound(x);
    let h = seq![x.kind.spec_code()];
    let t = seq![x.intensity];
    assert(e == h + be32(x.x) + (be32(x.y) + t));
    lemma_be32_in(b, pos, h, x.x, be32(x.y) + t);
    assert(e == (h + be32(x.x)) + be32(x.y) + t);
    lemma_be32_in(b, pos, h + be32(x.x), x.y, t);
    assert(b[pos] == e[0]);
    assert(b[pos + 9] == e[9]);
}

proof fn lemma_teammate_read(b: Seq<u8>, pos: int, x: TeammateView)
    requires
        holds_at(b, pos, enc_teammate(x)),
    ensures
        parse_teammate(b, pos) == Ok::<_, DecodeError>((x, pos + 22)),
{
    let e = enc_teammate(x);
    let a0 = be32(x.x);
    let a1 = be32(x.y);
    let a2 = be16(x.rotation);
    let a3 = be32(x.sight_range);
    let a4 = be32(x.sight_half_angle);
    let a5 = be32(x.sight_circle_radius);
    assert(e == Seq::<u8>::empty() + a0 + (a1 + a2 + a3 + a4 + a5));
    lemma_be32_in(b, pos, Seq::empty(), x.x, a1 + a2 + a3 + a4 + a5);
    assert(e == a0 + a1 + (a2 + a3 + a4 + a5));
    lemma_be32_in(b, pos, a0, x.y, a2 + a3 + a4 + a5);
    assert(e == (a0 + a1) + a2 + (a3 + a4 + a5));
    lemma_be16_in(b, pos, a0 + a1, x.rotation, a3 + a4 + a5);
    assert(e == (a0 + a1 + a2) + a3 + (a4 + a5));
    lemma_be32_in(b, pos, a0 + a1 + a2, x.sight_range, a4 + a5);
    assert(e == (a0 + a1 + a2 + a3) + a4 + a5);
    lemma_be32_in(b, pos, a0 + a1 + a2 + a3, x.sight_half_angle, a5);
    assert(e == (a0 + a1 + a2 + a3 + a4) + a5 + Seq::<u8>::empty());
    lemma_be32_in(b, pos, a0 + a1 + a2 + a3 + a4, x.sight_circle_radius, Seq::empty());
}

proof fn lemma_match_read(b: Seq<u8>, pos: int, x: MatchState)
    requires
        holds_at(b, pos, enc_match(x)),
    ensures
        parse_match(b, pos) == Ok::<_, DecodeError>((x, pos + 4)),
{
    let e = enc_match(x);
    let t = seq![x.score_team1, x.score_team2];
    assert(e == Seq::<u8>::empty() + be16(x.timer) + t);
    lemma_be16_in(b, pos, Seq::empty(), x.timer, t);
    assert(b[pos + 2] == e[2]);
    assert(b[pos + 3] == e[3]);
}

/// Reading `xs.len()` entries where their encodings sit gives `xs` back.
proof fn lemma_entries_read<T>(
    b: Seq<u8>,
    pos: int,
    xs: Seq<T>,
    f: spec_fn(T) -> Seq<u8>,
    item: spec_fn(Seq<u8>, int) -> Parsed<T>,
)
    requires
        holds_at(b, pos, enc_all(xs, f)),
        forall|x: T, q: int| #[trigger] holds_at(b, q, f(x)) ==> item(b, q) == Ok::<_, DecodeError>(
            (x, q + f(x).len()),
        ),
    ensures
        parse_n(b, pos, xs.len(), item) == Ok::<_, DecodeError>((xs, pos + enc_all(xs, f).len())),
    decreases xs.len(),
{
    if xs.len() > 0 {
        let dl = xs.drop_last();
        lemma_holds_at_split(b, pos, enc_all(dl, f), f(xs.last()));
        lemma_entries_read(b, pos, dl, f, item);
        assert(dl.push(xs.last()) =~= xs);
    } else {
        assert(xs =~= Seq::<T>::empty());
    }
}

/// Reading a counted list where its encoding sits gives the entries that
/// went on the wire.
proof fn lemma_list_read<T>(
    b: Seq<u8>,
    pos: int,
    xs: Seq<T>,
    f: spec_fn(T) -> Seq<u8>,
    item: spec_fn(Seq<u8>, int) -> Parsed<T>,
)
    requires
        holds_at(b, pos, enc_list(xs, f)),
        forall|x: T, q: int| #[trigger] holds_at(b, q, f(x)) ==> item(b, q) == Ok::<_, DecodeError>(
            (x, q + f(x).len()),
        ),
    ensures
        parse_list(b, pos, item) == Ok::<_, DecodeError>(
            (xs.take(wire_count(xs.len()) as int), pos + enc_list(xs, f).len()),
        ),
{
    let n = wire_count(xs.len());
    let head = seq![n as u8];
    lemma_holds_at_split(b, pos, head, enc_all(xs.take(n as int), f));
    assert(b[pos] == head[0]);
    lemma_entries_read(b, pos + 1, xs.take(n as int), f, item);
    assert(xs.take(n as int).len() == n);
}

proof fn lemma_player_parser_inverts(b: Seq<u8>)
    ensures
        forall|x: PlayerState, q: int| #[trigger] holds_at(b, q, player_enc()(x)) ==> player_parser()(
            b,
            q,
        ) == Ok::<_, DecodeError>((x, q + player_enc()(x).len())),
{
    assert forall|x: PlayerState, q: int| #[trigger] holds_at(b, q, player_enc()(x)) implies player_parser()(
        b,
        q,
    ) == Ok::<_, DecodeError>((x, q + player_enc()(x).len())) by {
        lemma_player_read(b, q, x);
    }
}

proof fn lemma_bullet_parser_inverts(b: Seq<u8>)
    ensures
        forall|x: BulletEvent, q: int| #[trigger] holds_at(b, q, bullet_enc()(x)) ==> bullet_parser()(
            b,
            q,
        ) == Ok::<_, DecodeError>((x, q + bullet_enc()(x).len())),
{
    assert forall|x: BulletEvent, q: int| #[trigger] holds_at(b, q, bullet_enc()(x)) implies bullet_parser()(
        b,
        q,
    ) == Ok::<_, DecodeError>((x, q + bullet_enc()(x).len())) by {
        lemma_bullet_read(b, q, x);
    }
}

proof fn lemma_sound_parser_inverts(b: Seq<u8>)
    ensures
        forall|x: SoundEvent, q: int| #[trigger] holds_at(b, q, sound_enc()(x)) ==> sound_parser()(
            b,
            q,
        ) == Ok::<_, DecodeError>((x, q + sound_enc()(x).len())),
{
    assert forall|x: SoundEvent, q: int| #[trigger] holds_at(b, q, sound_enc()(x)) implies sound_parser()(
        b,
        q,
    ) == Ok::<_, DecodeError>((x, q + sound_enc()(x).len())) by {
        lemma_sound_read(b, q, x);
    }
}

proof fn lemma_teammate_parser_inverts(b: Seq<u8>)
    ensures
        forall|x: TeammateView, q: int| #[trigger] holds_at(b, q, teammate_enc()(x)) ==> teammate_parser()(
            b,
            q,
        ) == Ok::<_, DecodeError>((x, q + teammate_enc()(x).len())),
{
    assert forall|x: TeammateView, q: int| #[trigger] holds_at(b, q, teammate_enc()(x)) implies teammate_parser()(
        b,
        q,
    ) == Ok::<_, DecodeError>((x, q + teammate_enc()(x).len())) by {
        lemma_teammate_read(b, q, x);
    }
}

proof fn lemma_snapshot_read(b: Seq<u8>, pos: int, s: ServerPacketView)
    requires
        holds_at(b, pos, enc_snapshot(s)),
    ensures
        parse_snapshot(b, pos) == Ok::<_, DecodeError>(
            (snapshot_on_wire(s), pos + enc_snapshot(s).len()),
        ),
{
    let a0 = be32(s.tick) + be32(s.timestamp);
    let a1 = a0 + enc_self(s.me);
    let l1 = enc_list(s.players, player_enc());
    let l2 = enc_list(s.bullets, bullet_enc());
    let l3 = enc_list(s.sounds, sound_enc());
    let l4 = enc_list(s.teammate_views, teammate_enc());
    let m = enc_match(s.match_state);
    assert(enc_snapshot(s) == a1 + l1 + l2 + l3 + l4 + m);
    lemma_holds_at_split(b, pos, a1 + l1 + l2 + l3 + l4, m);
    lemma_holds_at_split(b, pos, a1 + l1 + l2 + l3, l4);
    lemma_holds_at_split(b, pos, a1 + l1 + l2, l3);
    lemma_holds_at_split(b, pos, a1 + l1, l2);
    lemma_holds_at_split(b, pos, a1, l1);
    lemma_holds_at_split(b, pos, a0, enc_self(s.me));
    assert(a0 == be32(s.tick) + be32(s.timestamp) + Seq::<u8>::empty());
    lemma_be32_in(b, pos, Seq::empty(), s.tick, be32(s.timestamp));
    lemma_be32_in(b, pos, be32(s.tick), s.timestamp, Seq::empty());
    lemma_self_read(b, pos + 8, s.me);
    lemma_player_parser_inverts(b);
    lemma_bullet_parser_inverts(b);
    lemma_sound_parser_inverts(b);
    lemma_teammate_parser_inverts(b);
    lemma_list_read(b, pos + a1.len(), s.players, player_enc(), player_parser());
    lemma_list_read(b, pos + a1.len() + l1.len(), s.bullets, bullet_enc(), bullet_parser());
    lemma_list_read(b, pos + a1.len() + l1.len() + l2.len(), s.sounds, sound_enc(), sound_parser());
    lemma_list_read(
        b,
        pos + a1.len() + l1.len() + l2.len() + l3.len(),
        s.teammate_views,
        teammate_enc(),
        teammate_parser(),
    );
    lemma_match_read(b, pos + a1.len() + l1.len() + l2.len() + l3.len() + l4.len(), s.match_state);
}

proof fn lemma_holds_at_start(e: Seq<u8>, rest: Seq<u8>)
    ensures
        holds_at(e + rest, 0, e),
{
    let b = e + rest;
    assert forall|k: int| 0 <= k < e.len() implies b[0 + k] == #[trigger] e[k] by {
        assert(b[k] == e[k]);
    }
}

proof fn lemma_decode_connect_request(version: u8, name: Seq<u8>, rest: Seq<u8>)
    requires
        name.len() == 16,
    ensures
        ({
            let p = PacketView::ConnectRequest { version, name };
            spec_decode(encoding(p) + rest) == Ok::<_, DecodeError>(p)
        }),
{
    let p = PacketView::ConnectRequest { version, name };
    let e = encoding(p);
    let b = e + rest;
    assert(b[0] == e[0]);
    assert(b[1] == e[1]);
    assert(b.subrange(2, 18) =~= name) by {
        assert forall|k: int| 0 <= k < 16 implies b.subrange(2, 18)[k] == name[k] by {
            assert(b[2 + k] == e[2 + k]);
        }
    }
}

proof fn lemma_decode_connect_ack(a: ConnectAck, rest: Seq<u8>)
    ensures
        spec_decode(encoding(PacketView::ConnectAck(a)) + rest) == Ok::<_, DecodeError>(
            PacketView::ConnectAck(a),
        ),
{
    let e = encoding(PacketView::ConnectAck(a));
    let b = e + rest;
    lemma_holds_at_start(e, rest);
    assert(b[0] == e[0]);
    let h = seq![e[0], e[1]];
    assert(e == h + be16(a.player_id) + (seq![a.tick_rate] + be32(a.server_time)));
    lemma_be16_in(b, 0, h, a.player_id, seq![a.tick_rate] + be32(a.server_time));
    assert(e == (h + be16(a.player_id) + seq![a.tick_rate]) + be32(a.server_time)
        + Seq::<u8>::empty());
    lemma_be32_in(b, 0, h + be16(a.player_id) + seq![a.tick_rate], a.server_time, Seq::empty());
    assert(b[1] == e[1]);
    assert(b[4] == e[4]);
}

#[verifier::rlimit(40)]
#[verifier::spinoff_prover]
proof fn lemma_decode_client_input(c: ClientPacket, rest: Seq<u8>)
    ensures
        spec_decode(encoding(PacketView::ClientInput(c)) + rest) == Ok::<_, DecodeError>(
            PacketView::ClientInput(c),
        ),
{
    let e = encoding(PacketView::ClientInput(c));
    let b = e + rest;
    lemma_holds_at_start(e, rest);
    assert(b[0] == e[0]);
    let h = seq![e[0]];
    let mid = seq![i8_byte(c.movement_x), i8_byte(c.movement_y)];
    let t = seq![c.flags.0];
    assert(e == h + be16(c.sequence) + (be32(c.timestamp) + mid + be16(c.rotation) + t));
    lemma_be16_in(b, 0, h, c.sequence, be32(c.timestamp) + mid + be16(c.rotation) + t);
    assert(e == (h + be16(c.sequence)) + be32(c.timestamp) + (mid + be16(c.rotation) + t));
    lemma_be32_in(b, 0, h + be16(c.sequence), c.timestamp, mid + be16(c.rotation) + t);
    assert(e == (h + be16(c.sequence) + be32(c.timestamp) + mid) + be16(c.rotation) + t);
    lemma_be16_in(b, 0, h + be16(c.sequence) + be32(c.timestamp) + mid, c.rotation, t);
    assert(b[7] == e[7]);
    assert(b[8] == e[8]);
    assert(b[11] == e[11]);
    assert(byte_i8(i8_byte(c.movement_x)) == c.movement_x);
    assert(byte_i8(i8_byte(c.movement_y)) == c.movement_y);
}

proof fn lemma_decode_snapshot(s: ServerPacketView, rest: Seq<u8>)
    ensures
        spec_decode(encoding(PacketView::ServerSnapshot(s)) + rest) == Ok::<_, DecodeError>(
            PacketView::ServerSnapshot(snapshot_on_wire(s)),
        ),
{
    let e = encoding(PacketView::ServerSnapshot(s));
    let b = e + rest;
    lemma_holds_at_start(e, rest);
    assert(b[0] == e[0]);
    lemma_holds_at_split(b, 0, seq![e[0]], enc_snapshot(s));
    lemma_snapshot_read(b, 1, s);
}

proof fn lemma_decode_small(p: PacketView, rest: Seq<u8>)
    requires
        p is LobbyCommand || p is LobbyState || p is Disconnect || p is Ping || p is Pong,
    ensures
        spec_decode(encoding(p) + rest) == Ok::<_, DecodeError>(p),
{
    let e = encoding(p);
    let b = e + rest;
    lemma_holds_at_start(e, rest);
    assert(b[0] == e[0]);
    match p {
        PacketView::LobbyCommand(c) => {
            assert(b[1] == e[1]);
            assert(b[2] == e[2]);
        },
        PacketView::LobbyState(l) => {
            assert(b[1] == e[1]);
            assert(b[2] == e[2]);
            assert(b[3] == e[3]);
            assert(b[4] == e[4]);
        },
        PacketView::Ping(t) => {
            assert(e == seq![e[0]] + be32(t) + Seq::<u8>::empty());
            lemma_be32_in(b, 0, seq![e[0]], t, Seq::empty());
        },
        PacketView::Pong(t) => {
            assert(e == seq![e[0]] + be32(t) + Seq::<u8>::empty());
            lemma_be32_in(b, 0, seq![e[0]], t, Seq::empty());
        },
        _ => {},
    }
}

/// Decoding the bytes of a packet, whatever follows them, gives the packet
/// back, with each snapshot list cut to the 255 entries that went on the wire.
pub proof fn lemma_decode_encoding(p: PacketView, rest: Seq<u8>)
    requires
        packet_wf(p),
    ensures
        spec_decode(encoding(p) + rest) == Ok::<_, DecodeError>(packet_on_wire(p)),
{
    match p {
        PacketView::ConnectRequest { version, name } => lemma_decode_connect_request(
            version,
            name,
            rest,
        ),
        PacketView::ConnectAck(a) => lemma_decode_connect_ack(a, rest),
        PacketView::ClientInput(c) => lemma_decode_client_input(c, rest),
        PacketView::ServerSnapshot(s) => lemma_decode_snapshot(s, rest),
        _ => lemma_decode_small(p, rest),
    }
}

/// Law: decoding what `encode` produced for a packet, with any bytes after
/// it, yields that packet, each snapshot list cut to its first 255 entries.
pub proof fn law_decode_inverts_encode(p: AnyPacket, rest: Seq<u8>)
    ensures
        spec_decode(encoding(p@) + rest) == Ok::<_, DecodeError>(packet_on_wire(p@)),
{
    broadcast use vstd::array::group_array_axioms;

    if let AnyPacket::ConnectRequest(r) = p {
        assert(r.name@.len() == 16);
    }
    lemma_decode_encoding(p@, rest);
}


// ── Datagrams cut short ──────────────────────────────────────────────────────

/// `b` ends inside the bytes `a` that start at `pos`: it holds the part of
/// `a` that it reaches, and stops before `a` does.
pub open spec fn cut_at(b: Seq<u8>, pos: int, a: Seq<u8>) -> bool {
    &&& 0 <= pos <= b.len()
    &&& b.len() < pos + a.len()
    &&& forall|k: int| 0 <= k && pos + k < b.len() ==> b[pos + k] == #[trigger] a[k]
}

/// Where `b` ends inside two runs of bytes, it ends inside the first, or it
/// holds the first and ends inside the second.
proof fn lemma_cut_split(b: Seq<u8>, pos: int, a1: Seq<u8>, a2: Seq<u8>)
    requires
        cut_at(b, pos, a1 + a2),
    ensures
        b.len() < pos + a1.len() ==> cut_at(b, pos, a1),
        b.len() >= pos + a1.len() ==> holds_at(b, pos, a1) && cut_at(b, pos + a1.len(), a2),
{
    if b.len() < pos + a1.len() {
        assert forall|k: int| 0 <= k && pos + k < b.len() implies b[pos + k] == #[trigger] a1[k] by {
            assert((a1 + a2)[k] == a1[k]);
        }
    } else {
        assert forall|k: int| 0 <= k < a1.len() implies b[pos + k] == #[trigger] a1[k] by {
            assert((a1 + a2)[k] == a1[k]);
        }
        assert forall|k: int| 0 <= k && pos + a1.len() + k < b.len() implies b[pos + a1.len() + k]
            == #[trigger] a2[k] by {
            assert((a1 + a2)[a1.len() + k] == a2[k]);
        }
    }
}

proof fn lemma_player_parser_cut(b: Seq<u8>)
    ensures
        forall|x: PlayerState, q: int| #[trigger] cut_at(b, q, player_enc()(x)) ==> player_parser()(
            b,
            q,
        ) == eof::<PlayerState>(),
{
    assert forall|x: PlayerState, q: int| #[trigger] cut_at(b, q, player_enc()(x)) implies player_parser()(
        b,
        q,
    ) == eof::<PlayerState>() by {
        assert(enc_player(x).len() == 15);
    }
}

proof fn lemma_bullet_parser_cut(b: Seq<u8>)
    ensures
        forall|x: BulletEvent, q: int| #[trigger] cut_at(b, q, bullet_enc()(x)) ==> bullet_parser()(
            b,
            q,
        ) == eof::<BulletEvent>(),
{
    assert forall|x: BulletEvent, q: int| #[trigger] cut_at(b, q, bullet_enc()(x)) implies bullet_parser()(
        b,
        q,
    ) == eof::<BulletEvent>() by {
        assert(enc_bullet(x).len() == 21);
    }
}

proof fn lemma_sound_parser_cut(b: Seq<u8>)
    ensures
        forall|x: SoundEvent, q: int| #[trigger] cut_at(b, q, sound_enc()(x)) ==> sound_parser()(
            b,
            q,
        ) == eof::<SoundEvent>(),
{
    assert forall|x: SoundEvent, q: int| #[trigger] cut_at(b, q, sound_enc()(x)) implies sound_parser()(
        b,
        q,
    ) == eof::<SoundEvent>() by {
        let e = enc_sound(x);
        assert(e.len() == 10);
        if q < b.len() {
            assert(b[q + 0] == e[0]);
            assert(e[0] == x.kind.spec_code());
            assert(SoundKind::spec_from_u8(x.kind.spec_code()) == Some(x.kind));
        }
    }
}

proof fn lemma_teammate_parser_cut(b: Seq<u8>)
    ensures
        forall|x: TeammateView, q: int| #[trigger] cut_at(b, q, teammate_enc()(x)) ==> teammate_parser()(
            b,
            q,
        ) == eof::<TeammateView>(),
{
    assert forall|x: TeammateView, q: int| #[trigger] cut_at(b, q, teammate_enc()(x)) implies teammate_parser()(
        b,
        q,
    ) == eof::<TeammateView>() by {
        assert(enc_teammate(x).len() == 22);
    }
}

/// Reading `xs.len()` entries from a buffer that ends inside their
/// encodings fails with `UnexpectedEof`.
proof fn lemma_entries_cut<T>(
    b: Seq<u8>,
    pos: int,
    xs: Seq<T>,
    f: spec_fn(T) -> Seq<u8>,
    item: spec_fn(Seq<u8>, int) -> Parsed<T>,
)
    requires
        cut_at(b, pos, enc_all(xs, f)),
        forall|x: T, q: int| #[trigger] holds_at(b, q, f(x)) ==> item(b, q) == Ok::<_, DecodeError>(
            (x, q + f(x).len()),
        ),
        forall|x: T, q: int| #[trigger] cut_at(b, q, f(x)) ==> item(b, q) == eof::<T>(),
    ensures
        parse_n(b, pos, xs.len(), item) == eof::<Seq<T>>(),
    decreases xs.len(),
{
    if xs.len() == 0 {
        assert(enc_all(xs, f).len() == 0);
    } else {
        let dl = xs.drop_last();
        assert(enc_all(xs, f) == enc_all(dl, f) + f(xs.last()));
        lemma_cut_split(b, pos, enc_all(dl, f), f(xs.last()));
        if b.len() < pos + enc_all(dl, f).len() {
            lemma_entries_cut(b, pos, dl, f, item);
        } else {
            lemma_entries_read(b, pos, dl, f, item);
        }
    }
}

/// Reading a counted list from a buffer that ends inside its encoding fails
/// with `UnexpectedEof`.
proof fn lemma_list_cut<T>(
    b: Seq<u8>,
    pos: int,
    xs: Seq<T>,
    f: spec_fn(T) -> Seq<u8>,
    item: spec_fn(Seq<u8>, int) -> Parsed<T>,
)
    requires
        cut_at(b, pos, enc_list(xs, f)),
        forall|x: T, q: int| #[trigger] holds_at(b, q, f(x)) ==> item(b, q) == Ok::<_, DecodeError>(
            (x, q + f(x).len()),
        ),
        forall|x: T, q: int| #[trigger] cut_at(b, q, f(x)) ==> item(b, q) == eof::<T>(),
    ensures
        parse_list(b, pos, item) == eof::<Seq<T>>(),
{
    let n = wire_count(xs.len());
    let head = seq![n as u8];
    lemma_cut_split(b, pos, head, enc_all(xs.take(n as int), f));
    if b.len() >= pos + 1 {
        assert(b[pos + 0] == head[0]);
        lemma_entries_cut(b, pos + 1, xs.take(n as int), f, item);
        assert(xs.take(n as int).len() == n);
    }
}

/// The lists and match state of a snapshot, read from a buffer that ends
/// inside them, fail with `UnexpectedEof`.
#[verifier::rlimit(40)]
proof fn lemma_snapshot_tail_cut(b: Seq<u8>, pos: int, s: ServerPacketView)
    requires
        cut_at(
            b,
            pos,
            enc_list(s.players, player_enc()) + (enc_list(s.bullets, bullet_enc()) + (enc_list(
                s.sounds,
                sound_enc(),
            ) + (enc_list(s.teammate_views, teammate_enc()) + enc_match(s.match_state)))),
        ),
    ensures
        parse_snapshot_tail(b, pos, s.tick, s.timestamp, s.me) == eof::<ServerPacketView>(),
{
    let l1 = enc_list(s.players, player_enc());
    let l2 = enc_list(s.bullets, bullet_enc());
    let l3 = enc_list(s.sounds, sound_enc());
    let l4 = enc_list(s.teammate_views, teammate_enc());
    let m = enc_match(s.match_state);
    lemma_player_parser_inverts(b);
    lemma_bullet_parser_inverts(b);
    lemma_sound_parser_inverts(b);
    lemma_teammate_parser_inverts(b);
    lemma_player_parser_cut(b);
    lemma_bullet_parser_cut(b);
    lemma_sound_parser_cut(b);
    lemma_teammate_parser_cut(b);
    lemma_cut_split(b, pos, l1, l2 + (l3 + (l4 + m)));
    if b.len() < pos + l1.len() {
        lemma_list_cut(b, pos, s.players, player_enc(), player_parser());
        return;
    }
    lemma_list_read(b, pos, s.players, player_enc(), player_parser());
    let p1 = pos + l1.len();
    lemma_cut_split(b, p1, l2, l3 + (l4 + m));
    if b.len() < p1 + l2.len() {
        lemma_list_cut(b, p1, s.bullets, bullet_enc(), bullet_parser());
        return;
    }
    lemma_list_read(b, p1, s.bullets, bullet_enc(), bullet_parser());
    let p2 = p1 + l2.len();
    lemma_cut_split(b, p2, l3, l4 + m);
    if b.len() < p2 + l3.len() {
        lemma_list_cut(b, p2, s.sounds, sound_enc(), sound_parser());
        return;
    }
    lemma_list_read(b, p2, s.sounds, sound_enc(), sound_parser());
    let p3 = p2 + l3.len();
    lemma_cut_split(b, p3, l4, m);
    if b.len() < p3 + l4.len() {
        lemma_list_cut(b, p3, s.teammate_views, teammate_enc(), teammate_parser());
        return;
    }
    lemma_list_read(b, p3, s.teammate_views, teammate_enc(), teammate_parser());
    assert(m.len() == 4);
}

/// A snapshot read from a buffer that ends inside its encoding fails with
/// `UnexpectedEof`.
proof fn lemma_snapshot_cut(b: Seq<u8>, pos: int, s: ServerPacketView)
    requires
        cut_at(b, pos, enc_snapshot(s)),
    ensures
        parse_snapshot(b, pos) == eof::<ServerPacketView>(),
{
    let a0 = be32(s.tick) + be32(s.timestamp);
    let se = enc_self(s.me);
    let l1 = enc_list(s.players, player_enc());
    let l2 = enc_list(s.bullets, bullet_enc());
    let l3 = enc_list(s.sounds, sound_enc());
    let l4 = enc_list(s.teammate_views, teammate_enc());
    let m = enc_match(s.match_state);
    let tail = l1 + (l2 + (l3 + (l4 + m)));
    assert(enc_snapshot(s) =~= a0 + (se + tail));
    lemma_cut_split(b, pos, a0, se + tail);
    if b.len() < pos + 8 {
        return;
    }
    assert(a0 == be32(s.tick) + be32(s.timestamp) + Seq::<u8>::empty());
    lemma_be32_in(b, pos, Seq::empty(), s.tick, be32(s.timestamp));
    lemma_be32_in(b, pos, be32(s.tick), s.timestamp, Seq::empty());
    lemma_cut_split(b, pos + 8, se, tail);
    if b.len() < pos + 8 + 18 {
        return;
    }
    lemma_self_read(b, pos + 8, s.me);
    lemma_snapshot_tail_cut(b, pos + 26, s);
}

proof fn lemma_decode_cut_snapshot(s: ServerPacketView, n: int)
    requires
        0 < n < encoding(PacketView::ServerSnapshot(s)).len(),
    ensures
        spec_decode(encoding(PacketView::ServerSnapshot(s)).take(n)) == Err::<PacketView, _>(
            DecodeError::UnexpectedEof,
        ),
{
    let e = encoding(PacketView::ServerSnapshot(s));
    let b = e.take(n);
    let body = enc_snapshot(s);
    assert(b[0] == e[0]);
    assert(e == seq![e[0]] + body);
    assert forall|k: int| 0 <= k && 1 + k < b.len() implies b[1 + k] == #[trigger] body[k] by {
        assert(e[1 + k] == body[k]);
    }
    lemma_snapshot_cut(b, 1, s);
}

proof fn lemma_decode_cut_small(p: PacketView, n: int)
    requires
        packet_wf(p),
        !(p is ServerSnapshot),
        0 < n < encoding(p).len(),
    ensures
        spec_decode(encoding(p).take(n)) == Err::<PacketView, _>(DecodeError::UnexpectedEof),
{
    let e = encoding(p);
    let b = e.take(n);
    assert(b[0] == e[0]);
    if n >= 2 {
        assert(b[1] == e[1]);
    }
}

/// Decoding a buffer that ends inside the bytes of a packet fails with
/// `UnexpectedEof`.
pub proof fn lemma_decode_cut(p: PacketView, n: int)
    requires
        packet_wf(p),
        0 <= n < encoding(p).len(),
    ensures
        spec_decode(encoding(p).take(n)) == Err::<PacketView, _>(DecodeError::UnexpectedEof),
{
    if n > 0 {
        match p {
            PacketView::ServerSnapshot(s) => lemma_decode_cut_snapshot(s, n),
            _ => lemma_decode_cut_small(p, n),
        }
    }
}

/// Law: a datagram that ends anywhere inside the bytes `encode` produced
/// for a packet decodes to `UnexpectedEof`.
pub proof fn law_truncated_packet_is_eof(p: AnyPacket, n: int)
    requires
        0 <= n < encoding(p@).len(),
    ensures
        spec_decode(encoding(p@).take(n)) == Err::<PacketView, _>(DecodeError::UnexpectedEof),
{
    broadcast use vstd::array::group_array_axioms;

    if let AnyPacket::ConnectRequest(r) = p {
        assert(r.name@.len() == 16);
    }
    lemma_decode_cut(p@, n);
}

/// Law: the bytes `encode` produces for a packet start with the kind byte
/// that `kind` reports for it.
pub proof fn law_encoding_starts_with_kind(p: AnyPacket)
    ensures
        encoding(p@).len() >= 1,
        encoding(p@)[0] == p.spec_kind().spec_code(),
{
}

} // verus!
