//! The server's roster and the lobby rules: who may join, who leaves, team
//! selection, the start of the match, and what each client is told.
//!
//! Each connected client is known by a `u64` key that the transport assigns
//! to its address. Positions, aim and weapon timers are floating-point state
//! that the transport keeps beside the roster, under the same key.

use vstd::prelude::*;
use crate::proto::client::ClientPacket;
use crate::proto::handshake::{ConnectAck, ConnectRequest, ConnectResult, PROTOCOL_VERSION};
use crate::proto::lobby::{LobbyCommand, LobbyCommandKind, LobbyState};
use crate::socket::accept_ack;
use super::rounds::RoundOutcome;

verus! {

/// Most clients the server holds at once.
pub const MAX_PLAYERS: usize = 16;

/// Health of a player at the start of a round.
pub const MAX_HEALTH: u16 = 100;

/// Simulation ticks per second, announced in every connect acknowledgement.
pub const TICK_RATE: u8 = 60;

/// Per-connected-player state that the lobby and round rules read.
#[derive(Debug, Clone, Copy)]
pub struct Member {
    /// The transport's key for this client's address.
    pub key: u64,
    pub player_id: u16,
    /// The name field of the connect request, zero-padded.
    pub name: [u8; 16],
    pub health: u16,
    /// Team selection: `0` = none, `1` = team 1, `2` = team 2.
    pub team: u8,
    /// `true` for players who joined after the match started or who have not
    /// yet been spawned into the round.
    pub is_spectator: bool,
    /// Latest input packet received from this client.
    pub latest_input: Option<ClientPacket>,
}

/// What the server does with a connect request.
#[derive(Debug, Clone, Copy, PartialEq, Eq, Structural)]
pub enum ConnectDecision {
    /// The client is already in the roster: acknowledge it again.
    ReAck(u16),
    /// The client joined under this player id.
    NewPlayer(u16),
    /// The roster is full.
    Full,
    /// The request speaks another protocol version.
    VersionMismatch,
}

/// The roster, the player-id counter, the match flag, the room creator and
/// the round score.
pub struct Lobby {
    members: Vec<Member>,
    next_player_id: u16,
    game_started: bool,
    creator: Option<u64>,
    team1_rounds: u8,
    team2_rounds: u8,
}

/// The mathematical content of a [`Lobby`].
pub struct LobbyView {
    pub members: Seq<Member>,
    pub next_player_id: u16,
    pub game_started: bool,
    pub creator: Option<u64>,
    pub team1_rounds: u8,
    pub team2_rounds: u8,
}

impl View for Lobby {
    type V = LobbyView;

    closed spec fn view(&self) -> LobbyView {
        LobbyView {
            members: self.members@,
            next_player_id: self.next_player_id,
            game_started: self.game_started,
            creator: self.creator,
            team1_rounds: self.team1_rounds,
            team2_rounds: self.team2_rounds,
        }
    }
}

/// Position `i` of `ms` holds the member with key `key`.
pub open spec fn key_at(ms: Seq<Member>, key: u64, i: int) -> bool {
    0 <= i < ms.len() && ms[i].key == key
}

/// Some member of `ms` has key `key`.
pub open spec fn has_key(ms: Seq<Member>, key: u64) -> bool {
    exists|i: int| key_at(ms, key, i)
}

/// The position of the member with key `key` (meaningful when there is one).
pub open spec fn key_pos(ms: Seq<Member>, key: u64) -> int {
    choose|i: int| key_at(ms, key, i)
}

/// No two members share a key.
pub open spec fn keys_distinct(ms: Seq<Member>) -> bool {
    forall|i: int, j: int| 0 <= i < ms.len() && 0 <= j < ms.len() && i != j ==> ms[i].key != ms[j].key
}

/// The id handed out after `pid`: the next one, wrapping past `u16::MAX`
/// and skipping `0`.
pub open spec fn next_id(pid: u16) -> u16 {
    if pid == 0xffff {
        1
    } else {
        (pid + 1) as u16
    }
}

/// A member's id is not `0` and its team is `0`, `1` or `2`.
pub open spec fn member_ok(m: Member) -> bool {
    m.player_id != 0 && m.team <= 2
}

/// Every member of `ms` is [`member_ok`].
pub open spec fn members_ok(ms: Seq<Member>) -> bool {
    forall|i: int| 0 <= i < ms.len() ==> member_ok(#[trigger] ms[i])
}

/// The invariant of the lobby: keys are distinct, the roster is within the
/// limit, ids are never `0`, teams are `0`, `1` or `2`; once the match has
/// started there is a creator, and before it the creator is a member, present
/// exactly when the roster is not empty.
pub open spec fn lobby_wf(v: LobbyView) -> bool {
    &&& keys_distinct(v.members)
    &&& members_ok(v.members)
    &&& v.members.len() <= MAX_PLAYERS
    &&& v.next_player_id != 0
    &&& v.game_started ==> v.creator is Some
    &&& !v.game_started ==> (v.creator is Some <==> v.members.len() > 0)
    &&& !v.game_started ==> (v.creator matches Some(c) ==> has_key(v.members, c))
}

/// The member that a connect request adds.
pub open spec fn joining_member(v: LobbyView, key: u64, req: ConnectRequest) -> Member {
    Member {
        key,
        player_id: v.next_player_id,
        name: req.name,
        health: if v.game_started { 0 } else { MAX_HEALTH },
        team: 0,
        is_spectator: v.game_started,
        latest_input: None,
    }
}

/// The decision on a connect request: a known client is acknowledged again
/// (whatever its version), then a foreign version is refused, then a full
/// roster; otherwise the client joins under the next player id.
pub open spec fn connect_decision(v: LobbyView, key: u64, req: ConnectRequest) -> ConnectDecision {
    if has_key(v.members, key) {
        ConnectDecision::ReAck(v.members[key_pos(v.members, key)].player_id)
    } else if req.version != PROTOCOL_VERSION {
        ConnectDecision::VersionMismatch
    } else if v.members.len() >= MAX_PLAYERS {
        ConnectDecision::Full
    } else {
        ConnectDecision::NewPlayer(v.next_player_id)
    }
}

/// The lobby after a connect request: only a joining client changes it; the
/// first client of an empty room becomes its creator.
pub open spec fn after_connect(v: LobbyView, key: u64, req: ConnectRequest) -> LobbyView {
    match connect_decision(v, key, req) {
        ConnectDecision::NewPlayer(_) => LobbyView {
            members: v.members.push(joining_member(v, key, req)),
            next_player_id: next_id(v.next_player_id),
            game_started: v.game_started,
            creator: if v.creator is None {
                Some(key)
            } else {
                v.creator
            },
            team1_rounds: v.team1_rounds,
            team2_rounds: v.team2_rounds,
        },
        _ => v,
    }
}

/// The roster without the member of key `key`.
pub open spec fn without_key(ms: Seq<Member>, key: u64) -> Seq<Member> {
    if has_key(ms, key) {
        ms.remove(key_pos(ms, key))
    } else {
        ms
    }
}

/// The lobby after client `key` leaves: its member goes; if it created the
/// room and the match has not started, the first remaining member becomes
/// the creator (none if the room is empty).
pub open spec fn after_disconnect(v: LobbyView, key: u64) -> LobbyView {
    let ms = without_key(v.members, key);
    LobbyView {
        members: ms,
        next_player_id: v.next_player_id,
        game_started: v.game_started,
        creator: if v.creator == Some(key) && !v.game_started {
            if ms.len() > 0 {
                Some(ms[0].key)
            } else {
                None
            }
        } else {
            v.creator
        },
        team1_rounds: v.team1_rounds,
        team2_rounds: v.team2_rounds,
    }
}

/// The team a selection command asks for: `2`, or else `1`.
pub open spec fn chosen_team(team: u8) -> u8 {
    if team == 2 {
        2
    } else {
        1
    }
}

/// Whether client `key` may pick a team now: it is a member, and either the
/// match has not started or it has no team yet.
pub open spec fn may_select_team(v: LobbyView, key: u64) -> bool {
    has_key(v.members, key) && (!v.game_started || v.members[key_pos(v.members, key)].team == 0)
}

/// Whether client `key` may start the match: it created the room, is still
/// in it, and the match has not started.
pub open spec fn may_start(v: LobbyView, key: u64) -> bool {
    v.creator == Some(key) && !v.game_started && has_key(v.members, key)
}

/// A member at the start of the match: without a team it becomes a
/// spectator with no health; with one it enters with full health.
pub open spec fn started_member(m: Member) -> Member {
    if m.team == 0 {
        Member { is_spectator: true, health: 0, ..m }
    } else {
        Member { is_spectator: false, health: MAX_HEALTH, ..m }
    }
}

/// A member at the start of a new round: one with a team enters with full
/// health; one without stays as it is.
pub open spec fn respawned_member(m: Member) -> Member {
    if m.team == 0 {
        m
    } else {
        Member { is_spectator: false, health: MAX_HEALTH, ..m }
    }
}

/// Health after a hit of `damage`: the damage is clamped to `u16::MAX` and
/// health stops at `0`.
pub open spec fn damaged_health(health: u16, damage: u32) -> u16 {
    let d: int = if damage > 0xffff {
        0xffff
    } else {
        damage as int
    };
    if health <= d {
        0
    } else {
        (health - d) as u16
    }
}

/// One more, stopping at `u8::MAX`.
pub open spec fn sat_inc(n: u8) -> u8 {
    if n == 0xff {
        0xff
    } else {
        (n + 1) as u8
    }
}

/// The lobby after client `key` picks team `team` (when it may).
pub open spec fn after_select(v: LobbyView, key: u64, team: u8) -> LobbyView {
    LobbyView {
        members: v.members.update(
            key_pos(v.members, key),
            Member { team: chosen_team(team), ..v.members[key_pos(v.members, key)] },
        ),
        ..v
    }
}

/// The lobby once the match has started.
pub open spec fn after_start(v: LobbyView) -> LobbyView {
    LobbyView {
        members: v.members.map_values(|m: Member| started_member(m)),
        game_started: true,
        ..v
    }
}

/// The lobby at the start of a new round.
pub open spec fn after_respawn(v: LobbyView) -> LobbyView {
    LobbyView { members: v.members.map_values(|m: Member| respawned_member(m)), ..v }
}

/// Number of members of `ms` on team `team`.
pub open spec fn team_count(ms: Seq<Member>, team: u8) -> nat
    decreases ms.len(),
{
    if ms.len() == 0 {
        0
    } else {
        team_count(ms.drop_last(), team) + if ms.last().team == team {
            1nat
        } else {
            0nat
        }
    }
}

/// The lobby state that client `key` is sent.
pub open spec fn lobby_state_of(v: LobbyView, key: u64) -> LobbyState {
    LobbyState {
        game_started: v.game_started,
        your_team: if has_key(v.members, key) {
            v.members[key_pos(v.members, key)].team
        } else {
            0
        },
        team1_count: team_count(v.members, 1) as u8,
        team2_count: team_count(v.members, 2) as u8,
    }
}

pub(crate) proof fn lemma_team_count_bound(ms: Seq<Member>, team: u8)
    ensures
        team_count(ms, team) <= ms.len(),
    decreases ms.len(),
{
    if ms.len() > 0 {
        lemma_team_count_bound(ms.drop_last(), team);
    }
}

pub(crate) proof fn lemma_key_pos(ms: Seq<Member>, key: u64, i: int)
    requires
        keys_distinct(ms),
        key_at(ms, key, i),
    ensures
        has_key(ms, key),
        key_pos(ms, key) == i,
{
    assert(key_at(ms, key, i));
}

impl Lobby {
    pub closed spec fn wf(&self) -> bool {
        lobby_wf(self@)
    }

    /// An empty lobby: no members, ids from `1`, not started, no creator,
    /// no rounds won.
    pub fn new() -> (r: Lobby)
        ensures
            r.wf(),
            r@.members.len() == 0,
            r@.next_player_id == 1,
            !r@.game_started,
            r@.creator is None,
            r@.team1_rounds == 0,
            r@.team2_rounds == 0,
    {
        Lobby {
            members: Vec::new(),
            next_player_id: 1,
            game_started: false,
            creator: None,
            team1_rounds: 0,
            team2_rounds: 0,
        }
    }

    /// The members, in the order they joined.
    pub fn members(&self) -> (r: &[Member])
        ensures
            r@ == self@.members,
    {
        self.members.as_slice()
    }

    pub fn game_started(&self) -> (r: bool)
        ensures
            r == self@.game_started,
    {
        self.game_started
    }

    pub fn creator(&self) -> (r: Option<u64>)
        ensures
            r == self@.creator,
    {
        self.creator
    }

    /// Rounds won by team 1 and by team 2.
    pub fn rounds(&self) -> (r: (u8, u8))
        ensures
            r == (self@.team1_rounds, self@.team2_rounds),
    {
        (self.team1_rounds, self.team2_rounds)
    }

    /// The position of the member of key `key`, if there is one.
    pub fn find(&self, key: u64) -> (r: Option<usize>)
        requires
            self.wf(),
        ensures
            r is None <==> !has_key(self@.members, key),
            r matches Some(i) ==> key_at(self@.members, key, i as int) && key_pos(self@.members, key)
                == i,
    {
        let mut i: usize = 0;
        while i < self.members.len()
            invariant
                self.wf(),
                i <= self.members@.len(),
                forall|j: int| 0 <= j < i ==> self.members@[j].key != key,
            decreases self.members@.len() - i,
        {
            if self.members[i].key == key {
                proof {
                    lemma_key_pos(self.members@, key, i as int);
                }
                return Some(i);
            }
            i = i + 1;
        }
        None
    }

    /// Whether client `key` created the room.
    pub fn is_creator(&self, key: u64) -> (r: bool)
        ensures
            r == (self@.creator == Some(key)),
    {
        match self.creator {
            Some(c) => c == key,
            None => false,
        }
    }

    /// Handle a connect request from client `key`.
    ///
    /// A known client is acknowledged again under its id; otherwise a
    /// request of another protocol version is refused, then a full roster;
    /// otherwise the client joins under the next player id, as a spectator
    /// with no health when the match is under way.
    pub fn connect(&mut self, key: u64, req: &ConnectRequest) -> (r: ConnectDecision)
        requires
            old(self).wf(),
        ensures
            final(self).wf(),
            r == connect_decision(old(self)@, key, *req),
            final(self)@ == after_connect(old(self)@, key, *req),
    {
        let ghost v = self@;
        match self.find(key) {
            Some(i) => {
                return ConnectDecision::ReAck(self.members[i].player_id);
            },
            None => {},
        }
        if req.version != PROTOCOL_VERSION {
            return ConnectDecision::VersionMismatch;
        }
        if self.members.len() >= MAX_PLAYERS {
            return ConnectDecision::Full;
        }
        let pid = self.next_player_id;
        self.next_player_id = if pid == 0xffff {
            1
        } else {
            pid + 1
        };
        let started = self.game_started;
        let member = Member {
            key,
            player_id: pid,
            name: req.name,
            health: if started {
                0
            } else {
                MAX_HEALTH
            },
            team: 0,
            is_spectator: started,
            latest_input: None,
        };
        self.members.push(member);
        if self.creator.is_none() {
            self.creator = Some(key);
        }
        proof {
            lemma_push(v.members, joining_member(v, key, *req));
            assert(self.members@ =~= v.members.push(joining_member(v, key, *req)));
        }
        ConnectDecision::NewPlayer(pid)
    }

    /// Handle client `key` leaving.
    pub fn disconnect(&mut self, key: u64)
        requires
            old(self).wf(),
        ensures
            final(self).wf(),
            final(self)@ == after_disconnect(old(self)@, key),
    {
        let ghost v = self@;
        match self.find(key) {
            Some(i) => {
                self.members.remove(i);
            },
            None => {},
        }
        proof {
            if has_key(v.members, key) {
                lemma_remove(v.members, key);
            }
            assert(self.members@ =~= without_key(v.members, key));
        }
        if self.creator == Some(key) && !self.game_started {
            self.creator = if self.members.len() > 0 {
                Some(self.members[0].key)
            } else {
                None
            };
        }
        proof {
            let ms = self.members@;
            if !self.game_started {
                if let Some(c) = self.creator {
                    if v.creator == Some(key) {
                        assert(key_at(ms, c, 0));
                    } else {
                        assert(has_key(v.members, c));
                        assert(has_key(ms, c));
                    }
                }
            }
        }
    }

    /// Record the latest input of client `key`; spectators' inputs are
    /// ignored, and so is an unknown client.
    pub fn record_input(&mut self, key: u64, input: ClientPacket)
        requires
            old(self).wf(),
        ensures
            final(self).wf(),
            final(self)@.members == (if has_key(old(self)@.members, key)
                && !old(self)@.members[key_pos(old(self)@.members, key)].is_spectator {
                old(self)@.members.update(
                    key_pos(old(self)@.members, key),
                    Member {
                        latest_input: Some(input),
                        ..old(self)@.members[key_pos(old(self)@.members, key)]
                    },
                )
            } else {
                old(self)@.members
            }),
            final(self)@.next_player_id == old(self)@.next_player_id,
            final(self)@.game_started == old(self)@.game_started,
            final(self)@.creator == old(self)@.creator,
            final(self)@.team1_rounds == old(self)@.team1_rounds,
            final(self)@.team2_rounds == old(self)@.team2_rounds,
    {
        let ghost v = self@;
        match self.find(key) {
            Some(i) => {
                if !self.members[i].is_spectator {
                    let mut m = self.members[i];
                    m.latest_input = Some(input);
                    self.members.set(i, m);
                    proof {
                        let rs = self.members@;
                        assert(rs =~= v.members.update(i as int, m));
                        assert forall|j: int| 0 <= j < rs.len() implies member_ok(#[trigger] rs[j]) by {
                            assert(member_ok(v.members[j]));
                        }
                        lemma_same_keys(v.members, rs);
                    }
                }
            },
            None => {},
        }
    }

    /// Handle a lobby command from client `key`; returns whether the lobby
    /// changed, so that every client is sent the new lobby state.
    ///
    /// `SelectTeam` puts a member on team `2` when it asks for it and on team
    /// `1` otherwise, unless the match is under way and it already has a
    /// team. `StartGame` starts the match when the room's creator sends it
    /// before the start: members without a team become spectators with no
    /// health, the others enter with full health.
    pub fn lobby_command(&mut self, key: u64, cmd: LobbyCommand) -> (changed: bool)
        requires
            old(self).wf(),
        ensures
            final(self).wf(),
            changed == (match cmd.kind {
                LobbyCommandKind::SelectTeam => may_select_team(old(self)@, key),
                LobbyCommandKind::StartGame => may_start(old(self)@, key),
            }),
            changed && cmd.kind == LobbyCommandKind::SelectTeam ==> final(self)@ == after_select(old(self)@, key, cmd.team),
            changed && cmd.kind == LobbyCommandKind::StartGame ==> final(self)@ == after_start(old(self)@),
            !changed ==> final(self)@ == old(self)@,
    {
        match cmd.kind {
            LobbyCommandKind::SelectTeam => self.select_team(key, cmd.team),
            LobbyCommandKind::StartGame => self.start_game(key),
        }
    }

    fn select_team(&mut self, key: u64, team: u8) -> (changed: bool)
        requires
            old(self).wf(),
        ensures
            final(self).wf(),
            changed == may_select_team(old(self)@, key),
            changed ==> final(self)@ == after_select(old(self)@, key, team),
            !changed ==> final(self)@ == old(self)@,
    {
        let ghost v = self@;
        match self.find(key) {
            Some(i) => {
                if !self.game_started || self.members[i].team == 0 {
                    let mut m = self.members[i];
                    m.team = if team == 2 {
                        2
                    } else {
                        1
                    };
                    self.members.set(i, m);
                    proof {
                        let rs = self.members@;
                        assert(rs =~= v.members.update(i as int, m));
                        assert forall|j: int| 0 <= j < rs.len() implies member_ok(#[trigger] rs[j]) by {
                            assert(member_ok(v.members[j]));
                        }
                        lemma_same_keys(v.members, rs);
                        assert(self@.members =~= v.members.update(
                            key_pos(v.members, key),
                            Member { team: chosen_team(team), ..v.members[key_pos(v.members, key)] },
                        ));
                    }
                    true
                } else {
                    false
                }
            },
            None => false,
        }
    }

    fn start_game(&mut self, key: u64) -> (changed: bool)
        requires
            old(self).wf(),
        ensures
            final(self).wf(),
            changed == may_start(old(self)@, key),
            changed ==> final(self)@ == after_start(old(self)@),
            !changed ==> final(self)@ == old(self)@,
    {
        let ghost v = self@;
        let is_creator = self.is_creator(key);
        if !is_creator || self.game_started {
            return false;
        }
        if self.find(key).is_none() {
            return false;
        }
        self.game_started = true;
        let mut i: usize = 0;
        while i < self.members.len()
            invariant
                i <= self.members@.len(),
                self.members@.len() == v.members.len(),
                forall|j: int| 0 <= j < i ==> self.members@[j] == started_member(v.members[j]),
                self.game_started,
                self.next_player_id == v.next_player_id,
                self.creator == v.creator,
                self.team1_rounds == v.team1_rounds,
                self.team2_rounds == v.team2_rounds,
                forall|j: int| i <= j < self.members@.len() ==> self.members@[j] == v.members[j],
            decreases self.members@.len() - i,
        {
            let mut m = self.members[i];
            if m.team == 0 {
                m.is_spectator = true;
                m.health = 0;
            } else {
                m.health = MAX_HEALTH;
                m.is_spectator = false;
            }
            self.members.set(i, m);
            i = i + 1;
        }
        proof {
            let ms = self.members@;
            assert(ms =~= v.members.map_values(|m: Member| started_member(m)));
            assert forall|j: int| 0 <= j < ms.len() implies member_ok(#[trigger] ms[j]) by {
                assert(member_ok(v.members[j]));
            }
            lemma_same_keys(v.members, ms);
        }
        true
    }

    /// The lobby state that client `key` is sent: the match flag, its team
    /// (`0` when it is not a member) and the size of each team.
    pub fn lobby_state_for(&self, key: u64) -> (r: LobbyState)
        requires
            self.wf(),
        ensures
            r == lobby_state_of(self@, key),
    {
        let mut team1: u8 = 0;
        let mut team2: u8 = 0;
        let mut i: usize = 0;
        while i < self.members.len()
            invariant
                i <= self.members@.len(),
                self.members@.len() <= MAX_PLAYERS,
                team1 == team_count(self.members@.take(i as int), 1),
                team2 == team_count(self.members@.take(i as int), 2),
            decreases self.members@.len() - i,
        {
            proof {
                let ms = self.members@;
                assert(ms.take(i + 1).drop_last() =~= ms.take(i as int));
                lemma_team_count_bound(ms.take(i as int), 1);
                lemma_team_count_bound(ms.take(i as int), 2);
            }
            let t = self.members[i].team;
            if t == 1 {
                team1 = team1 + 1;
            } else if t == 2 {
                team2 = team2 + 1;
            }
            i = i + 1;
        }
        proof {
            assert(self.members@.take(i as int) =~= self.members@);
        }
        let your_team = match self.find(key) {
            Some(j) => self.members[j].team,
            None => 0,
        };
        LobbyState { game_started: self.game_started, your_team, team1_count: team1, team2_count: team2 }
    }

    /// A bullet of `damage` hits client `key`: its health drops by the damage,
    /// clamped to `u16::MAX`, and stops at `0`. Returns the id of the member
    /// hit, `0` when `key` is not a member.
    pub fn apply_damage(&mut self, key: u64, damage: u32) -> (hit: u16)
        requires
            old(self).wf(),
        ensures
            final(self).wf(),
            hit == (if has_key(old(self)@.members, key) {
                old(self)@.members[key_pos(old(self)@.members, key)].player_id
            } else {
                0
            }),
            final(self)@.members == (if has_key(old(self)@.members, key) {
                old(self)@.members.update(
                    key_pos(old(self)@.members, key),
                    Member {
                        health: damaged_health(
                            old(self)@.members[key_pos(old(self)@.members, key)].health,
                            damage,
                        ),
                        ..old(self)@.members[key_pos(old(self)@.members, key)]
                    },
                )
            } else {
                old(self)@.members
            }),
            final(self)@.next_player_id == old(self)@.next_player_id,
            final(self)@.game_started == old(self)@.game_started,
            final(self)@.creator == old(self)@.creator,
            final(self)@.team1_rounds == old(self)@.team1_rounds,
            final(self)@.team2_rounds == old(self)@.team2_rounds,
    {
        let ghost v = self@;
        match self.find(key) {
            Some(i) => {
                let mut m = self.members[i];
                let clamped: u16 = if damage > 0xffff {
                    0xffff
                } else {
                    damage as u16
                };
                m.health = m.health.saturating_sub(clamped);
                self.members.set(i, m);
                proof {
                    let rs = self.members@;
                    assert(rs =~= v.members.update(i as int, m));
                    assert forall|j: int| 0 <= j < rs.len() implies member_ok(#[trigger] rs[j]) by {
                        assert(member_ok(v.members[j]));
                    }
                    lemma_same_keys(v.members, rs);
                }
                m.player_id
            },
            None => 0,
        }
    }

    /// Credit the round's winner: a win adds one round, saturating, to the
    /// winning team. Returns whether the round is over, so that the respawn
    /// countdown starts.
    pub fn finish_round(&mut self, outcome: RoundOutcome) -> (over: bool)
        requires
            old(self).wf(),
        ensures
            final(self).wf(),
            over == (outcome != RoundOutcome::Continue),
            final(self)@.team1_rounds == (if outcome == RoundOutcome::Team1Wins {
                sat_inc(old(self)@.team1_rounds)
            } else {
                old(self)@.team1_rounds
            }),
            final(self)@.team2_rounds == (if outcome == RoundOutcome::Team2Wins {
                sat_inc(old(self)@.team2_rounds)
            } else {
                old(self)@.team2_rounds
            }),
            final(self)@.members == old(self)@.members,
            final(self)@.next_player_id == old(self)@.next_player_id,
            final(self)@.game_started == old(self)@.game_started,
            final(self)@.creator == old(self)@.creator,
    {
        match outcome {
            RoundOutcome::Team1Wins => {
                self.team1_rounds = self.team1_rounds.saturating_add(1);
                true
            },
            RoundOutcome::Team2Wins => {
                self.team2_rounds = self.team2_rounds.saturating_add(1);
                true
            },
            RoundOutcome::Draw => true,
            RoundOutcome::Continue => false,
        }
    }

    /// Start a new round: every member with a team gets full health and
    /// leaves the spectators; members without a team stay as they are.
    pub fn respawn_all(&mut self)
        requires
            old(self).wf(),
        ensures
            final(self).wf(),
            final(self)@ == after_respawn(old(self)@),
            final(self)@.members.len() == old(self)@.members.len(),
            forall|j: int|
                0 <= j < old(self)@.members.len() && old(self)@.members[j].team == 0
                    ==> #[trigger] final(self)@.members[j] == old(self)@.members[j],
            forall|j: int|
                0 <= j < old(self)@.members.len() && old(self)@.members[j].team != 0 ==> {
                    let m = #[trigger] final(self)@.members[j];
                    let o = old(self)@.members[j];
                    &&& m.health == MAX_HEALTH
                    &&& !m.is_spectator
                    &&& m.key == o.key
                    &&& m.player_id == o.player_id
                    &&& m.name == o.name
                    &&& m.team == o.team
                    &&& m.latest_input == o.latest_input
                },
    {
        let ghost v = self@;
        let mut i: usize = 0;
        while i < self.members.len()
            invariant
                i <= self.members@.len(),
                self.members@.len() == v.members.len(),
                forall|j: int| 0 <= j < i ==> self.members@[j] == respawned_member(v.members[j]),
                self.game_started == v.game_started,
                self.next_player_id == v.next_player_id,
                self.creator == v.creator,
                self.team1_rounds == v.team1_rounds,
                self.team2_rounds == v.team2_rounds,
                forall|j: int| i <= j < self.members@.len() ==> self.members@[j] == v.members[j],
            decreases self.members@.len() - i,
        {
            let mut m = self.members[i];
            if m.team != 0 {
                m.health = MAX_HEALTH;
                m.is_spectator = false;
            }
            self.members.set(i, m);
            i = i + 1;
        }
        proof {
            let ms = self.members@;
            assert(ms =~= v.members.map_values(|m: Member| respawned_member(m)));
            assert forall|j: int| 0 <= j < ms.len() implies member_ok(#[trigger] ms[j]) by {
                assert(member_ok(v.members[j]));
            }
            lemma_same_keys(v.members, ms);
        }
    }
}

/// The acknowledgement that answers a connect request: a refusal carries
/// player id `0`; a joining or known client is acknowledged under its id,
/// with the version check of [`accept_ack`].
pub fn connect_reply(decision: ConnectDecision, req: &ConnectRequest, server_time: u32) -> (r:
    ConnectAck)
    ensures
        r.tick_rate == TICK_RATE,
        r.server_time == server_time,
        match decision {
            ConnectDecision::Full => r.result == ConnectResult::ServerFull && r.player_id == 0,
            ConnectDecision::VersionMismatch => r.result == ConnectResult::VersionMismatch
                && r.player_id == 0,
            ConnectDecision::ReAck(pid) | ConnectDecision::NewPlayer(pid) => r.player_id == pid
                && r.result == (if req.version != PROTOCOL_VERSION {
                ConnectResult::VersionMismatch
            } else {
                ConnectResult::Accepted
            }),
        },
{
    match decision {
        ConnectDecision::Full => ConnectAck {
            result: ConnectResult::ServerFull,
            player_id: 0,
            tick_rate: TICK_RATE,
            server_time,
        },
        ConnectDecision::VersionMismatch => ConnectAck {
            result: ConnectResult::VersionMismatch,
            player_id: 0,
            tick_rate: TICK_RATE,
            server_time,
        },
        ConnectDecision::ReAck(pid) => accept_ack(req, pid, TICK_RATE, server_time),
        ConnectDecision::NewPlayer(pid) => accept_ack(req, pid, TICK_RATE, server_time),
    }
}

pub(crate) proof fn lemma_push(ms: Seq<Member>, m: Member)
    requires
        keys_distinct(ms),
        members_ok(ms),
        member_ok(m),
        !has_key(ms, m.key),
    ensures
        keys_distinct(ms.push(m)),
        members_ok(ms.push(m)),
        forall|c: u64| #[trigger] has_key(ms.push(m), c) <==> (has_key(ms, c) || c == m.key),
{
    let r = ms.push(m);
    assert forall|i: int| 0 <= i < r.len() implies member_ok(#[trigger] r[i]) by {
        if i < ms.len() {
            assert(r[i] == ms[i]);
        }
    }
    assert forall|i: int, j: int|
        0 <= i < r.len() && 0 <= j < r.len() && i != j implies r[i].key != r[j].key by {
        if i == ms.len() {
            assert(!key_at(ms, m.key, j));
        } else if j == ms.len() {
            assert(!key_at(ms, m.key, i));
        }
    }
    assert forall|c: u64| #[trigger] has_key(r, c) <==> (has_key(ms, c) || c == m.key) by {
        if has_key(ms, c) {
            let j = choose|j: int| key_at(ms, c, j);
            assert(key_at(r, c, j));
        }
        if c == m.key {
            assert(key_at(r, c, ms.len() as int));
        }
        if has_key(r, c) && c != m.key {
            let j = choose|j: int| key_at(r, c, j);
            assert(key_at(ms, c, j));
        }
    }
}

pub(crate) proof fn lemma_remove(ms: Seq<Member>, key: u64)
    requires
        keys_distinct(ms),
        members_ok(ms),
        has_key(ms, key),
    ensures
        keys_distinct(ms.remove(key_pos(ms, key))),
        members_ok(ms.remove(key_pos(ms, key))),
        ms.remove(key_pos(ms, key)).len() == ms.len() - 1,
        forall|c: u64| #[trigger] has_key(ms.remove(key_pos(ms, key)), c) <==> (has_key(ms, c) && c
            != key),
{
    let p = key_pos(ms, key);
    let r = ms.remove(p);
    assert forall|i: int| 0 <= i < r.len() implies r[i] == ms[if i < p { i } else { i + 1 }] by {}
    assert forall|i: int| 0 <= i < r.len() implies member_ok(#[trigger] r[i]) by {
        assert(r[i] == ms[if i < p { i } else { i + 1 }]);
    }
    assert forall|i: int, j: int|
        0 <= i < r.len() && 0 <= j < r.len() && i != j implies r[i].key != r[j].key by {
        assert(r[i] == ms[if i < p { i } else { i + 1 }]);
        assert(r[j] == ms[if j < p { j } else { j + 1 }]);
    }
    assert forall|c: u64| #[trigger] has_key(r, c) <==> (has_key(ms, c) && c != key) by {
        if has_key(ms, c) && c != key {
            let j = choose|j: int| key_at(ms, c, j);
            assert(j != p);
            let q = if j < p { j } else { j - 1 };
            assert(r[q] == ms[if q < p { q } else { q + 1 }]);
            assert(key_at(r, c, q));
        }
        if has_key(r, c) {
            let j = choose|j: int| key_at(r, c, j);
            let q = if j < p { j } else { j + 1 };
            assert(r[j] == ms[q]);
            assert(key_at(ms, c, q));
        }
    }
}

/// A change of members that keeps each member's key, id and validity keeps
/// the roster's keys, and the position of each key.
pub(crate) proof fn lemma_same_keys(ms: Seq<Member>, rs: Seq<Member>)
    requires
        keys_distinct(ms),
        members_ok(rs),
        rs.len() == ms.len(),
        forall|i: int| 0 <= i < ms.len() ==> (#[trigger] rs[i]).key == ms[i].key,
    ensures
        keys_distinct(rs),
        forall|c: u64| #[trigger] has_key(rs, c) <==> has_key(ms, c),
        forall|c: u64| has_key(ms, c) ==> #[trigger] key_pos(rs, c) == key_pos(ms, c),
{
    assert forall|i: int, j: int|
        0 <= i < rs.len() && 0 <= j < rs.len() && i != j implies rs[i].key != rs[j].key by {
        assert(rs[i].key == ms[i].key);
        assert(rs[j].key == ms[j].key);
    }
    assert forall|c: u64| #[trigger] has_key(rs, c) <==> has_key(ms, c) by {
        if has_key(ms, c) {
            let j = choose|j: int| key_at(ms, c, j);
            assert(rs[j].key == ms[j].key);
            assert(key_at(rs, c, j));
        }
        if has_key(rs, c) {
            let j = choose|j: int| key_at(rs, c, j);
            assert(rs[j].key == ms[j].key);
            assert(key_at(ms, c, j));
        }
    }
    assert forall|c: u64| has_key(ms, c) implies #[trigger] key_pos(rs, c) == key_pos(ms, c) by {
        let p = key_pos(ms, c);
        let q = key_pos(rs, c);
        assert(key_at(ms, c, p));
        assert(has_key(rs, c));
        assert(key_at(rs, c, q));
        assert(rs[q].key == ms[q].key);
    }
}

} // verus!
