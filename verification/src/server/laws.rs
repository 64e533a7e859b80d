//! Properties of the lobby and round rules that span several operations.

use vstd::prelude::*;
use crate::proto::handshake::ConnectRequest;
use super::lobby::{
    after_connect, after_disconnect, after_respawn, after_start, connect_decision, has_key,
    joining_member, key_pos, lemma_key_pos, lemma_push, lemma_team_count_bound,
    lobby_state_of, lobby_wf, may_select_team, may_start, next_id, started_member,
    respawned_member, team_count, ConnectDecision, LobbyView, Member, MAX_HEALTH,
};
use super::rounds::{active_count, outcome_of, team_counts_of, RoundOutcome};
use super::snapshot::{lemma_positions_below_has, lemma_positions_below_only, positions_below, shown_to};

verus! {

/// A client that is already in the roster and connects again is
/// acknowledged under the id it has, and the lobby does not change.
pub proof fn law_reconnect_is_idempotent(v: LobbyView, key: u64, req: ConnectRequest)
    requires
        lobby_wf(v),
        has_key(v.members, key),
    ensures
        connect_decision(v, key, req) == ConnectDecision::ReAck(
            v.members[key_pos(v.members, key)].player_id,
        ),
        after_connect(v, key, req) == v,
{
}

/// A refused connect request (full room or foreign version) leaves the lobby
/// as it was.
pub proof fn law_refused_connect_changes_nothing(v: LobbyView, key: u64, req: ConnectRequest)
    requires
        lobby_wf(v),
        connect_decision(v, key, req) == ConnectDecision::Full || connect_decision(v, key, req)
            == ConnectDecision::VersionMismatch,
    ensures
        after_connect(v, key, req) == v,
{
}

/// A client that joins is found in the roster under the id it was given,
/// with no team; the next client gets the next non-zero id.
pub proof fn law_joined_client_is_in_roster(v: LobbyView, key: u64, req: ConnectRequest)
    requires
        lobby_wf(v),
        connect_decision(v, key, req) is NewPlayer,
    ensures
        ({
            let w = after_connect(v, key, req);
            &&& has_key(w.members, key)
            &&& w.members[key_pos(w.members, key)].player_id == v.next_player_id
            &&& lobby_state_of(w, key).your_team == 0
            &&& w.next_player_id == next_id(v.next_player_id)
            &&& w.next_player_id != 0
        }),
{
    let w = after_connect(v, key, req);
    let m = joining_member(v, key, req);
    lemma_push(v.members, m);
    lemma_key_pos(w.members, key, v.members.len() as int);
}

/// A client that joins and then leaves leaves the roster as it found it.
pub proof fn law_join_then_leave_restores_roster(v: LobbyView, key: u64, req: ConnectRequest)
    requires
        lobby_wf(v),
        connect_decision(v, key, req) is NewPlayer,
    ensures
        after_disconnect(after_connect(v, key, req), key).members == v.members,
{
    let w = after_connect(v, key, req);
    let m = joining_member(v, key, req);
    lemma_push(v.members, m);
    lemma_key_pos(w.members, key, v.members.len() as int);
    assert(w.members.remove(v.members.len() as int) =~= v.members);
}

/// Once the match has started nobody can start it again.
pub proof fn law_match_starts_once(v: LobbyView, key: u64, other: u64)
    requires
        lobby_wf(v),
        may_start(v, key),
    ensures
        !may_start(after_start(v), other),
{
}

/// Only the room's creator can start the match.
pub proof fn law_only_creator_starts(v: LobbyView, key: u64)
    requires
        lobby_wf(v),
        v.creator != Some(key),
    ensures
        !may_start(v, key),
{
}

/// The client that joins a room with no creator becomes its creator.
pub proof fn law_first_joiner_creates_room(v: LobbyView, key: u64, req: ConnectRequest)
    requires
        lobby_wf(v),
        v.creator is None,
        connect_decision(v, key, req) is NewPlayer,
    ensures
        after_connect(v, key, req).creator == Some(key),
{
}

/// When the creator leaves before the match starts and others remain, the
/// room passes to one of them.
pub proof fn law_room_passes_on_when_creator_leaves(v: LobbyView, key: u64)
    requires
        lobby_wf(v),
        v.creator == Some(key),
        !v.game_started,
        has_key(v.members, key),
        v.members.len() > 1,
    ensures
        ({
            let w = after_disconnect(v, key);
            &&& w.creator is Some
            &&& has_key(w.members, w.creator->0)
            &&& w.creator->0 != key
        }),
{
    let w = after_disconnect(v, key);
    lemma_key_pos(w.members, w.members[0].key, 0);
}

/// During the match a player who has a team cannot change it.
pub proof fn law_team_locked_during_match(v: LobbyView, key: u64)
    requires
        lobby_wf(v),
        v.game_started,
        has_key(v.members, key),
        v.members[key_pos(v.members, key)].team != 0,
    ensures
        !may_select_team(v, key),
{
}

/// The team sizes a client is told never add up to more than the roster.
pub proof fn law_team_sizes_within_roster(v: LobbyView, key: u64)
    requires
        lobby_wf(v),
    ensures
        lobby_state_of(v, key).team1_count + lobby_state_of(v, key).team2_count
            <= v.members.len(),
{
    lemma_team_counts_sum(v.members);
}

proof fn lemma_team_counts_sum(ms: Seq<Member>)
    requires
        ms.len() <= 16,
    ensures
        team_count(ms, 1) + team_count(ms, 2) <= ms.len(),
    decreases ms.len(),
{
    if ms.len() > 0 {
        lemma_team_counts_sum(ms.drop_last());
    }
    lemma_team_count_bound(ms, 1);
    lemma_team_count_bound(ms, 2);
}

proof fn lemma_all_alive(ms: Seq<Member>, team: u8)
    requires
        forall|i: int|
            0 <= i < ms.len() && !ms[i].is_spectator && ms[i].team == team ==> #[trigger] ms[i].health
                > 0,
    ensures
        active_count(ms, team, true) == active_count(ms, team, false),
    decreases ms.len(),
{
    if ms.len() > 0 {
        let d = ms.drop_last();
        assert forall|i: int|
            0 <= i < d.len() && !d[i].is_spectator && d[i].team == team implies #[trigger] d[i].health
            > 0 by {
            assert(d[i] == ms[i]);
        }
        lemma_all_alive(d, team);
        assert(ms.last() == ms[ms.len() - 1]);
    }
}

/// At the start of a new round nobody has won it yet: every active player
/// has full health.
pub proof fn law_new_round_has_no_winner(v: LobbyView)
    requires
        lobby_wf(v),
    ensures
        outcome_of(team_counts_of(after_respawn(v).members)) == RoundOutcome::Continue,
{
    let ms = after_respawn(v).members;
    assert forall|i: int| 0 <= i < ms.len() && !ms[i].is_spectator && ms[i].team == 1 implies #[trigger] ms[i].health > 0 by {
        assert(ms[i] == respawned_member(v.members[i]));
    }
    assert forall|i: int| 0 <= i < ms.len() && !ms[i].is_spectator && ms[i].team == 2 implies #[trigger] ms[i].health > 0 by {
        assert(ms[i] == respawned_member(v.members[i]));
    }
    lemma_all_alive(ms, 1);
    lemma_all_alive(ms, 2);
}

/// Nobody has won the first round when the match starts.
pub proof fn law_match_start_has_no_winner(v: LobbyView)
    requires
        lobby_wf(v),
    ensures
        outcome_of(team_counts_of(after_start(v).members)) == RoundOutcome::Continue,
{
    let ms = after_start(v).members;
    assert forall|i: int| 0 <= i < ms.len() && !ms[i].is_spectator && ms[i].team == 1 implies #[trigger] ms[i].health > 0 by {
        assert(ms[i] == started_member(v.members[i]));
    }
    assert forall|i: int| 0 <= i < ms.len() && !ms[i].is_spectator && ms[i].team == 2 implies #[trigger] ms[i].health > 0 by {
        assert(ms[i] == started_member(v.members[i]));
    }
    lemma_all_alive(ms, 1);
    lemma_all_alive(ms, 2);
}

/// A living teammate always appears in a player's snapshot, whatever the
/// line-of-sight verdicts.
pub proof fn law_teammates_always_shown(ms: Seq<Member>, r: int, seen: Seq<bool>, j: int)
    requires
        0 <= r < ms.len(),
        0 <= j < ms.len(),
        j != r,
        ms[j].health > 0,
        ms[r].team != 0,
        ms[j].team == ms[r].team,
    ensures
        positions_below(ms.len() as int, |i: int| shown_to(ms, r, seen, i)).contains(j as usize),
{
    lemma_positions_below_has(ms.len() as int, |i: int| shown_to(ms, r, seen, i), j);
}

/// A spectator, or a dead player, is shown every other living player.
pub proof fn law_spectators_see_everyone_alive(ms: Seq<Member>, r: int, seen: Seq<bool>, j: int)
    requires
        0 <= r < ms.len(),
        0 <= j < ms.len(),
        j != r,
        ms[j].health > 0,
        ms[r].is_spectator || ms[r].health == 0,
    ensures
        positions_below(ms.len() as int, |i: int| shown_to(ms, r, seen, i)).contains(j as usize),
{
    lemma_positions_below_has(ms.len() as int, |i: int| shown_to(ms, r, seen, i), j);
}

/// Nobody is shown to themselves, and the dead are shown to nobody.
pub proof fn law_dead_and_self_never_shown(ms: Seq<Member>, r: int, seen: Seq<bool>, x: usize)
    requires
        0 <= r < ms.len(),
        ms.len() <= usize::MAX,
        positions_below(ms.len() as int, |i: int| shown_to(ms, r, seen, i)).contains(x),
    ensures
        x as int != r,
        ms[x as int].health > 0,
{
    lemma_positions_below_only(ms.len() as int, |i: int| shown_to(ms, r, seen, i), x);
}

/// A new round leaves the members without a team as they were (spectators
/// stay spectators, with the health they had); everyone on a team comes
/// back with full health and out of the spectators.
pub proof fn law_respawn_keeps_teamless_members(v: LobbyView, j: int)
    requires
        lobby_wf(v),
        0 <= j < v.members.len(),
    ensures
        after_respawn(v).members.len() == v.members.len(),
        v.members[j].team == 0 ==> after_respawn(v).members[j] == v.members[j],
        v.members[j].team != 0 ==> after_respawn(v).members[j].health == MAX_HEALTH
            && !after_respawn(v).members[j].is_spectator && after_respawn(v).members[j].team
            == v.members[j].team && after_respawn(v).members[j].key == v.members[j].key,
{
}

} // verus!
