use game::server::clock::{millis_or_zero, server_time_ms, wire_time};
use game::server::lobby::{connect_reply, ConnectDecision, Lobby, MAX_HEALTH, MAX_PLAYERS, TICK_RATE};
use game::server::movement::movement_state_from_input;
use game::server::rounds::{count_active_teams, round_outcome, RoundOutcome, TeamCounts};
use game::server::snapshot::{
    build_snapshot, echoed_timestamp, self_state_bytes, sight_sharers, visible_players, BodyState,
};
use game::{BulletEvent, ClientPacket, ConnectRequest, MovementState, ConnectResult, InputFlags, LobbyCommand, MoveSpeed, PROTOCOL_VERSION};

fn join(lobby: &mut Lobby, key: u64, name: &str) -> ConnectDecision {
    lobby.connect(key, &ConnectRequest::new(name))
}

fn input(shooting: bool, speed: MoveSpeed, peeking: bool) -> ClientPacket {
    let mut flags = InputFlags::default();
    flags.set_shooting(shooting);
    flags.set_move_speed(speed);
    flags.set_peeking(peeking);
    ClientPacket { sequence: 1, timestamp: 77, movement_x: 1, movement_y: 0, rotation: 0, flags }
}

#[test]
fn first_client_creates_the_room_and_ids_count_up() {
    let mut lobby = Lobby::new();
    assert_eq!(join(&mut lobby, 10, "alice"), ConnectDecision::NewPlayer(1));
    assert_eq!(join(&mut lobby, 20, "bob"), ConnectDecision::NewPlayer(2));
    assert_eq!(lobby.creator(), Some(10));
    assert!(lobby.is_creator(10));
    assert!(!lobby.is_creator(20));
    let m = lobby.members();
    assert_eq!(m.len(), 2);
    assert_eq!(m[0].health, MAX_HEALTH);
    assert!(!m[0].is_spectator);
    assert_eq!(m[0].team, 0);
    assert_eq!(&m[0].name[..5], b"alice");
}

#[test]
fn reconnect_is_acknowledged_under_the_same_id() {
    let mut lobby = Lobby::new();
    join(&mut lobby, 10, "alice");
    assert_eq!(join(&mut lobby, 10, "alice"), ConnectDecision::ReAck(1));
    assert_eq!(lobby.members().len(), 1);
}

#[test]
fn version_mismatch_and_full_room_are_refused() {
    let mut lobby = Lobby::new();
    let mut old = ConnectRequest::new("old");
    old.version = PROTOCOL_VERSION + 1;
    assert_eq!(lobby.connect(1, &old), ConnectDecision::VersionMismatch);
    assert_eq!(lobby.members().len(), 0);
    for k in 0..MAX_PLAYERS as u64 {
        assert!(matches!(join(&mut lobby, 100 + k, "p"), ConnectDecision::NewPlayer(_)));
    }
    assert_eq!(join(&mut lobby, 999, "late"), ConnectDecision::Full);
    assert_eq!(lobby.members().len(), MAX_PLAYERS);

    let req = ConnectRequest::new("x");
    let full = connect_reply(ConnectDecision::Full, &req, 5);
    assert_eq!((full.result, full.player_id, full.tick_rate, full.server_time), (ConnectResult::ServerFull, 0, TICK_RATE, 5));
    let mismatch = connect_reply(ConnectDecision::VersionMismatch, &req, 5);
    assert_eq!((mismatch.result, mismatch.player_id), (ConnectResult::VersionMismatch, 0));
    let ok = connect_reply(ConnectDecision::NewPlayer(3), &req, 5);
    assert_eq!((ok.result, ok.player_id), (ConnectResult::Accepted, 3));
}

#[test]
fn creator_role_moves_when_the_creator_leaves_before_the_start() {
    let mut lobby = Lobby::new();
    join(&mut lobby, 10, "a");
    join(&mut lobby, 20, "b");
    join(&mut lobby, 30, "c");
    lobby.disconnect(10);
    assert_eq!(lobby.creator(), Some(20));
    assert_eq!(lobby.members().len(), 2);
    lobby.disconnect(20);
    lobby.disconnect(30);
    assert_eq!(lobby.creator(), None);
    assert_eq!(join(&mut lobby, 40, "d"), ConnectDecision::NewPlayer(4));
    assert_eq!(lobby.creator(), Some(40));
}

#[test]
fn team_selection_and_match_start() {
    let mut lobby = Lobby::new();
    join(&mut lobby, 10, "a");
    join(&mut lobby, 20, "b");
    join(&mut lobby, 30, "c");
    assert!(lobby.lobby_command(10, LobbyCommand::select_team(1)));
    assert!(lobby.lobby_command(20, LobbyCommand { kind: game::LobbyCommandKind::SelectTeam, team: 7 }));
    assert!(lobby.lobby_command(20, LobbyCommand::select_team(2)));
    let st = lobby.lobby_state_for(10);
    assert_eq!((st.game_started, st.your_team, st.team1_count, st.team2_count), (false, 1, 1, 1));
    assert_eq!(lobby.lobby_state_for(99).your_team, 0);

    // Only the creator starts the match.
    assert!(!lobby.lobby_command(20, LobbyCommand::start_game()));
    assert!(lobby.lobby_command(10, LobbyCommand::start_game()));
    assert!(lobby.game_started());
    assert!(!lobby.lobby_command(10, LobbyCommand::start_game()));
    let m = lobby.members();
    assert_eq!((m[0].health, m[0].is_spectator), (MAX_HEALTH, false));
    assert_eq!((m[2].health, m[2].is_spectator), (0, true));

    // Teams are locked once chosen, but a spectator without a team may pick one.
    assert!(!lobby.lobby_command(20, LobbyCommand::select_team(1)));
    assert!(lobby.lobby_command(30, LobbyCommand::select_team(2)));
    assert_eq!(lobby.lobby_state_for(30).team2_count, 2);

    // A late joiner is a spectator with no health.
    assert_eq!(join(&mut lobby, 40, "late"), ConnectDecision::NewPlayer(4));
    let late = lobby.members()[3];
    assert_eq!((late.health, late.is_spectator), (0, true));
}

#[test]
fn rounds_end_when_a_team_is_wiped_out() {
    let mut lobby = Lobby::new();
    join(&mut lobby, 10, "a");
    join(&mut lobby, 20, "b");
    lobby.lobby_command(10, LobbyCommand::select_team(1));
    lobby.lobby_command(20, LobbyCommand::select_team(2));
    lobby.lobby_command(10, LobbyCommand::start_game());
    let counts = count_active_teams(lobby.members());
    assert_eq!(counts, TeamCounts { alive1: 1, total1: 1, alive2: 1, total2: 1 });
    assert_eq!(round_outcome(counts), RoundOutcome::Continue);

    assert_eq!(lobby.apply_damage(20, 40), 2);
    assert_eq!(lobby.members()[1].health, 60);
    assert_eq!(lobby.apply_damage(20, 1_000_000), 2);
    assert_eq!(lobby.members()[1].health, 0);
    assert_eq!(lobby.apply_damage(99, 5), 0);
    let outcome = round_outcome(count_active_teams(lobby.members()));
    assert_eq!(outcome, RoundOutcome::Team1Wins);
    assert!(lobby.finish_round(outcome));
    assert_eq!(lobby.rounds(), (1, 0));

    lobby.respawn_all();
    assert_eq!(lobby.members()[1].health, MAX_HEALTH);
    assert_eq!(round_outcome(count_active_teams(lobby.members())), RoundOutcome::Continue);
    assert!(!lobby.finish_round(RoundOutcome::Continue));
}

#[test]
fn round_outcomes() {
    let c = |a1, t1, a2, t2| TeamCounts { alive1: a1, total1: t1, alive2: a2, total2: t2 };
    assert_eq!(round_outcome(c(0, 0, 0, 3)), RoundOutcome::Continue);
    assert_eq!(round_outcome(c(0, 2, 1, 2)), RoundOutcome::Team2Wins);
    assert_eq!(round_outcome(c(2, 2, 0, 2)), RoundOutcome::Team1Wins);
    assert_eq!(round_outcome(c(0, 2, 0, 2)), RoundOutcome::Draw);
    assert_eq!(round_outcome(c(1, 2, 1, 2)), RoundOutcome::Continue);
}

#[test]
fn spectators_inputs_are_ignored() {
    let mut lobby = Lobby::new();
    join(&mut lobby, 10, "a");
    lobby.record_input(10, input(true, MoveSpeed::Run, false));
    assert!(lobby.members()[0].latest_input.is_some());
    assert_eq!(echoed_timestamp(&lobby.members()[0]), 77);
    lobby.lobby_command(10, LobbyCommand::start_game());
    join(&mut lobby, 20, "late");
    lobby.record_input(20, input(true, MoveSpeed::Run, false));
    assert!(lobby.members()[1].latest_input.is_none());
    assert_eq!(echoed_timestamp(&lobby.members()[1]), 0);
}

#[test]
fn movement_state_follows_the_input() {
    let none = movement_state_from_input(None, false);
    assert_eq!(none.move_speed(), MoveSpeed::Walk);
    assert!(!none.is_peeking());
    assert!(!none.is_reloading());
    let pkt = input(false, MoveSpeed::Run, true);
    let st = movement_state_from_input(Some(&pkt), true);
    assert_eq!(st.move_speed(), MoveSpeed::Run);
    assert!(st.is_peeking());
    assert!(st.is_reloading());
    assert_eq!(st.0, 2 | 4 | 8);
}

#[test]
fn snapshot_roster_rules() {
    let mut lobby = Lobby::new();
    for (k, name) in [(1u64, "a"), (2, "b"), (3, "c"), (4, "d")] {
        join(&mut lobby, k, name);
    }
    lobby.lobby_command(1, LobbyCommand::select_team(1));
    lobby.lobby_command(2, LobbyCommand::select_team(1));
    lobby.lobby_command(3, LobbyCommand::select_team(2));
    lobby.lobby_command(1, LobbyCommand::start_game());
    let m = lobby.members();
    // Player 1 sees its teammate always, the enemy only in sight.
    assert_eq!(visible_players(m, 0, &[false, false, false, false]), vec![1]);
    assert_eq!(visible_players(m, 0, &[false, false, true, false]), vec![1, 2]);
    // The spectator (no team) sees every living player.
    assert_eq!(visible_players(m, 3, &[false; 4]), vec![0, 1, 2]);
    assert_eq!(sight_sharers(m, 0), vec![1]);
    assert_eq!(sight_sharers(m, 3), Vec::<usize>::new());
    // Not reloading: no time left.
    assert_eq!(self_state_bytes(99, 1000, 0, 2000), (99, 255, 0));
    // A quarter of a 2 s reload has passed: 255 / 4 rounded down.
    assert_eq!(self_state_bytes(300, 7, 1500, 2000), (255, 7, 63));
    // Half way, then almost done.
    assert_eq!(self_state_bytes(50, 0, 1000, 2000).2, 127);
    assert_eq!(self_state_bytes(50, 0, 1, 2000).2, 254);
    // Just started.
    assert_eq!(self_state_bytes(50, 0, 2000, 2000).2, 0);
}

#[test]
fn clock_is_truncated_to_32_bits() {
    assert_eq!(wire_time(0x1_0000_0005), 5);
    assert_eq!(wire_time(42), 42);
    // A clock set before the epoch reads as 0.
    assert_eq!(millis_or_zero(None), 0);
    assert_eq!(millis_or_zero(Some(0x1_0000_0007)), 0x1_0000_0007);
    assert_eq!(wire_time(millis_or_zero(Some(0x1_0000_0007))), 7);
    let _ = server_time_ms();
}

fn body(x: u32, ammo: u32, reload_left_ms: u32) -> BodyState {
    BodyState {
        x,
        y: 2,
        rotation: 3,
        movement_state: MovementState(0),
        ammo,
        reload_left_ms,
        reload_time_ms: 2000,
        aim_cone_half_angle: 9,
        sight_range: 10,
        sight_half_angle: 11,
        sight_circle_radius: 12,
    }
}

#[test]
fn snapshot_packet_carries_tick_bullets_scores_and_the_shown_players() {
    let mut lobby = Lobby::new();
    for (k, name) in [(1u64, "a"), (2, "b"), (3, "c")] {
        join(&mut lobby, k, name);
    }
    lobby.lobby_command(1, LobbyCommand::select_team(1));
    lobby.lobby_command(2, LobbyCommand::select_team(1));
    lobby.lobby_command(3, LobbyCommand::select_team(2));
    lobby.lobby_command(1, LobbyCommand::start_game());
    lobby.record_input(1, input(false, MoveSpeed::Walk, false));
    let bodies = [body(100, 30, 1000), body(200, 5, 0), body(300, 0, 0)];
    let bullet = BulletEvent {
        shooter_id: 2,
        from_x: 1,
        from_y: 2,
        to_x: 3,
        to_y: 4,
        hit_player_id: 0,
        shooter_team: 1,
    };
    let p = build_snapshot(42, &[bullet], &lobby, &bodies, 0, &[false, false, false], 5);
    assert_eq!(p.tick, 42);
    assert_eq!(p.timestamp, 77);
    assert_eq!(p.me.health, 100);
    assert_eq!(p.me.ammo, 30);
    assert_eq!(p.me.reload_progress, 127);
    assert_eq!(p.me.x, 100);
    // Only the teammate is shown: the enemy is out of sight.
    assert_eq!(p.players.len(), 1);
    assert_eq!((p.players[0].id, p.players[0].x, p.players[0].team), (2, 200, 1));
    assert_eq!(p.bullets, vec![bullet]);
    assert!(p.sounds.is_empty());
    assert_eq!(p.teammate_views.len(), 1);
    assert_eq!((p.teammate_views[0].x, p.teammate_views[0].sight_range), (200, 10));
    assert_eq!((p.match_state.timer, p.match_state.score_team1, p.match_state.score_team2), (5, 0, 0));
}
