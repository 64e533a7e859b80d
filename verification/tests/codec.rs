use game::socket::{accept_ack, decode_datagram, expect_connect_ack};
use game::{
    decode, encode, AnyPacket, BulletEvent, ClientPacket, ConnectAck, ConnectRequest, ConnectResult,
    DecodeError, InputFlags, LobbyCommand, LobbyCommandKind, LobbyState, MatchState, MovementState,
    PlayerState, RecvError, SelfState, ServerPacket, SoundEvent, SoundKind, TeammateView,
    MAX_DATAGRAM, PROTOCOL_VERSION,
};

/// Angle in radians to the wire's `u16` full-circle format.
fn encode_rotation(rad: f32) -> u16 {
    let normalised = rad.rem_euclid(std::f32::consts::TAU);
    ((normalised / std::f32::consts::TAU) * 65535.0) as u16
}

/// The wire's `u16` full-circle format to radians.
fn decode_rotation(v: u16) -> f32 {
    (v as f32 / 65535.0) * std::f32::consts::TAU
}

fn bits(v: f32) -> u32 {
    v.to_bits()
}

fn float(v: u32) -> f32 {
    f32::from_bits(v)
}

fn connect_request_roundtrip() {
    let original = AnyPacket::ConnectRequest(ConnectRequest::new("TestPlayer"));
    let buf = encode(&original);
    let decoded = decode(&buf).unwrap();
    let AnyPacket::ConnectRequest(p) = decoded else {
        panic!("wrong variant")
    };
    assert_eq!(p.version, PROTOCOL_VERSION);
    assert_eq!(p.name_str(), "TestPlayer");
}

fn client_input_roundtrip() {
    let mut flags = InputFlags::default();
    flags.set_shooting(true);
    flags.set_weapon_slot(3);
    let original = AnyPacket::ClientInput(ClientPacket {
        sequence: 1234,
        timestamp: 9_000_000,
        movement_x: -1,
        movement_y: 1,
        rotation: encode_rotation(1.5707964),
        flags,
    });
    let buf = encode(&original);
    let decoded = decode(&buf).unwrap();
    let AnyPacket::ClientInput(p) = decoded else {
        panic!("wrong variant")
    };
    assert_eq!(p.sequence, 1234);
    assert_eq!(p.movement_x, -1);
    assert!(p.flags.is_shooting());
    assert_eq!(p.flags.weapon_slot(), 3);
}

fn snapshot(me_x: f32, me_y: f32, aim: f32) -> ServerPacket {
    ServerPacket {
        tick: 42,
        timestamp: 1000,
        me: SelfState {
            health: 100,
            ammo: 30,
            reload_progress: 0,
            movement_state: MovementState(0),
            x: bits(me_x),
            y: bits(me_y),
            rotation: encode_rotation(1.0),
            aim_cone_half_angle: bits(aim),
        },
        players: vec![PlayerState {
            id: 7,
            x: bits(3.5),
            y: bits(12.25),
            rotation: encode_rotation(0.0),
            movement_state: MovementState(0),
            weapon: 1,
            team: 0,
        }],
        bullets: vec![BulletEvent {
            shooter_id: 7,
            from_x: bits(3.5),
            from_y: bits(12.25),
            to_x: bits(10.0),
            to_y: bits(15.0),
            hit_player_id: 0,
            shooter_team: 0,
        }],
        sounds: vec![SoundEvent { kind: SoundKind::Gunshot, x: bits(3.5), y: bits(12.25), intensity: 200 }],
        teammate_views: vec![],
        match_state: MatchState { timer: 180, score_team1: 3, score_team2: 1 },
    }
}

fn rotation_roundtrip_check() {
    for deg in [0.0f32, 45.0, 90.0, 180.0, 270.0, 359.9] {
        let rad = deg.to_radians();
        let decoded = decode_rotation(encode_rotation(rad));
        assert!((decoded - rad).abs() < 0.0002, "rotation roundtrip failed for {deg}°: got {decoded}");
    }
}

fn unknown_kind_check() {
    assert!(matches!(decode(&[0xFF]), Err(DecodeError::UnknownKind(0xFF))));
}

fn truncated_check() {
    let buf = encode(&AnyPacket::Ping(12345));
    assert!(matches!(decode(&buf[..buf.len() - 1]), Err(DecodeError::UnexpectedEof)));
}

#[test]
fn codec_roundtrip_connect_request() {
    connect_request_roundtrip();
}

#[test]
fn mod_roundtrip_connect_request() {
    connect_request_roundtrip();
}

#[test]
fn codec_roundtrip_client_input() {
    client_input_roundtrip();
}

#[test]
fn mod_roundtrip_client_input() {
    client_input_roundtrip();
}

#[test]
fn codec_roundtrip_server_snapshot() {
    let buf = encode(&AnyPacket::ServerSnapshot(snapshot(0.0, 0.0, 0.0)));
    let decoded = decode(&buf).unwrap();
    let AnyPacket::ServerSnapshot(p) = decoded else {
        panic!("wrong variant")
    };
    assert_eq!(p.tick, 42);
    assert_eq!(p.me.health, 100);
    assert_eq!(p.players.len(), 1);
    assert_eq!(p.players[0].id, 7);
    assert!((float(p.players[0].x) - 3.5).abs() < 1e-5);
    assert_eq!(p.bullets.len(), 1);
    assert_eq!(p.sounds.len(), 1);
    assert_eq!(p.sounds[0].kind, SoundKind::Gunshot);
    assert_eq!(p.match_state.timer, 180);
}

#[test]
fn mod_roundtrip_server_snapshot() {
    let buf = encode(&AnyPacket::ServerSnapshot(snapshot(19.125, 28.75, 0.125)));
    let decoded = decode(&buf).unwrap();
    let AnyPacket::ServerSnapshot(p) = decoded else {
        panic!("wrong variant")
    };
    assert_eq!(p.tick, 42);
    assert_eq!(p.me.health, 100);
    assert!((float(p.me.x) - 19.125).abs() < 1e-5);
    assert!((float(p.me.y) - 28.75).abs() < 1e-5);
    assert!((float(p.me.aim_cone_half_angle) - 0.125).abs() < 1e-6);
    assert_eq!(p.players.len(), 1);
    assert_eq!(p.players[0].id, 7);
    assert!((float(p.players[0].x) - 3.5).abs() < 1e-5);
    assert_eq!(p.bullets.len(), 1);
    assert_eq!(p.sounds.len(), 1);
    assert_eq!(p.sounds[0].kind, SoundKind::Gunshot);
    assert_eq!(p.match_state.timer, 180);
}

#[test]
fn roundtrip_lobby_packets() {
    let select = AnyPacket::LobbyCommand(LobbyCommand::select_team(2));
    let decoded = decode(&encode(&select)).unwrap();
    let AnyPacket::LobbyCommand(cmd) = decoded else {
        panic!("wrong variant")
    };
    assert_eq!(cmd.kind, LobbyCommandKind::SelectTeam);
    assert_eq!(cmd.team, 2);

    let state = AnyPacket::LobbyState(LobbyState { game_started: true, your_team: 1, team1_count: 2, team2_count: 0 });
    let decoded = decode(&encode(&state)).unwrap();
    let AnyPacket::LobbyState(lobby) = decoded else {
        panic!("wrong variant")
    };
    assert!(lobby.game_started);
    assert_eq!(lobby.your_team, 1);
    assert_eq!(lobby.team1_count, 2);
    assert_eq!(lobby.team2_count, 0);
}

#[test]
fn codec_rotation_roundtrip() {
    rotation_roundtrip_check();
}

#[test]
fn mod_rotation_roundtrip() {
    rotation_roundtrip_check();
}

#[test]
fn codec_unknown_kind_returns_error() {
    unknown_kind_check();
}

#[test]
fn mod_unknown_kind_returns_error() {
    unknown_kind_check();
}

#[test]
fn codec_truncated_buffer_returns_eof() {
    truncated_check();
}

#[test]
fn mod_truncated_buffer_returns_eof() {
    truncated_check();
}

#[test]
fn ping_encodes_kind_then_big_endian_timestamp() {
    let buf = encode(&AnyPacket::Ping(0x0102_0304));
    assert_eq!(buf.len(), 5);
    assert_eq!(&buf[1..], &[1, 2, 3, 4]);
    assert!(matches!(decode(&buf), Ok(AnyPacket::Ping(0x0102_0304))));
}

#[test]
fn every_strict_prefix_of_a_connect_request_is_eof() {
    let buf = encode(&AnyPacket::ConnectRequest(ConnectRequest::new("abc")));
    for n in 1..buf.len() {
        assert!(matches!(decode(&buf[..n]), Err(DecodeError::UnexpectedEof)));
    }
    assert!(matches!(decode(&[]), Err(DecodeError::UnexpectedEof)));
}

#[test]
fn every_strict_prefix_of_a_snapshot_is_eof() {
    let buf = encode(&AnyPacket::ServerSnapshot(snapshot(1.0, 2.0, 0.5)));
    for n in 0..buf.len() {
        assert!(matches!(decode(&buf[..n]), Err(DecodeError::UnexpectedEof)));
    }
    assert!(decode(&buf).is_ok());
}

#[test]
fn encoding_starts_with_the_packet_kind() {
    let packets = vec![
        AnyPacket::ConnectRequest(ConnectRequest::new("x")),
        AnyPacket::ServerSnapshot(snapshot(1.0, 2.0, 0.5)),
        AnyPacket::LobbyCommand(LobbyCommand::start_game()),
        AnyPacket::Disconnect,
        AnyPacket::Pong(7),
    ];
    for p in &packets {
        let buf = encode(p);
        assert_eq!(buf[0], p.kind().code());
    }
}

#[test]
fn invalid_fields_are_refused() {
    // A connect acknowledgement whose result byte is out of range.
    let mut buf = encode(&AnyPacket::ConnectAck(ConnectAck {
        result: ConnectResult::Accepted,
        player_id: 1,
        tick_rate: 60,
        server_time: 0,
    }));
    buf[1] = 9;
    assert!(matches!(decode(&buf), Err(DecodeError::InvalidField(_))));
}

#[test]
fn teammate_views_and_moves_survive_the_wire() {
    let mut snap = snapshot(1.0, 2.0, 0.5);
    snap.teammate_views.push(TeammateView {
        x: bits(4.0),
        y: bits(5.0),
        rotation: 77,
        sight_range: bits(9.0),
        sight_half_angle: bits(0.7),
        sight_circle_radius: bits(1.5),
    });
    let mut ms = MovementState::default();
    ms.set_peeking(true);
    snap.players[0].movement_state = ms;
    let decoded = decode(&encode(&AnyPacket::ServerSnapshot(snap))).unwrap();
    let AnyPacket::ServerSnapshot(p) = decoded else {
        panic!("wrong variant")
    };
    assert_eq!(p.teammate_views.len(), 1);
    assert_eq!(p.teammate_views[0].rotation, 77);
    assert!(p.players[0].movement_state.is_peeking());
}

#[test]
fn datagram_size_and_handshake_rules() {
    let big = vec![0x06u8; MAX_DATAGRAM + 1];
    assert!(matches!(decode_datagram(&big), Err(RecvError::Oversized(n)) if n == MAX_DATAGRAM + 1));
    assert!(matches!(decode_datagram(&[0xFF]), Err(RecvError::Decode(DecodeError::UnknownKind(0xFF)))));
    assert!(matches!(decode_datagram(&encode(&AnyPacket::Disconnect)), Ok(AnyPacket::Disconnect)));

    let mut req = ConnectRequest::new("me");
    let ack = accept_ack(&req, 5, 60, 99);
    assert_eq!(ack.result, ConnectResult::Accepted);
    assert_eq!((ack.player_id, ack.tick_rate, ack.server_time), (5, 60, 99));
    req.version = PROTOCOL_VERSION + 1;
    assert_eq!(accept_ack(&req, 5, 60, 99).result, ConnectResult::VersionMismatch);

    assert!(matches!(expect_connect_ack(AnyPacket::ConnectAck(ack)), Ok(a) if a == ack));
    assert!(matches!(
        expect_connect_ack(AnyPacket::Ping(1)),
        Err(RecvError::Decode(DecodeError::InvalidField("expected ConnectAck")))
    ));
}
