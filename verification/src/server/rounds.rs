//! Round-end detection: a round ends when one team has been wiped out.

use vstd::prelude::*;
use super::lobby::Member;

verus! {

/// Active (non-spectator) players of each team, and how many of them are
/// alive.
#[derive(Debug, Clone, Copy, PartialEq, Eq, Structural)]
pub struct TeamCounts {
    pub alive1: u32,
    pub total1: u32,
    pub alive2: u32,
    pub total2: u32,
}

/// How a tick ends the round, if it does.
#[derive(Debug, Clone, Copy, PartialEq, Eq, Structural)]
pub enum RoundOutcome {
    /// The round goes on.
    Continue,
    /// Team 2 has been wiped out while team 1 lives.
    Team1Wins,
    /// Team 1 has been wiped out while team 2 lives.
    Team2Wins,
    /// Both teams were wiped out at once: no point is awarded.
    Draw,
}

/// A member that plays for team `team` this round.
pub open spec fn active_on(m: Member, team: u8) -> bool {
    !m.is_spectator && m.team == team
}

/// Number of members of `ms` that play for team `team`, alive or not when
/// `alive_only` is false, alive only when it is true.
pub open spec fn active_count(ms: Seq<Member>, team: u8, alive_only: bool) -> nat
    decreases ms.len(),
{
    if ms.len() == 0 {
        0
    } else {
        let m = ms.last();
        active_count(ms.drop_last(), team, alive_only) + if active_on(m, team) && (!alive_only
            || m.health > 0) {
            1nat
        } else {
            0nat
        }
    }
}

/// The counts of `ms`.
pub open spec fn team_counts_of(ms: Seq<Member>) -> TeamCounts {
    TeamCounts {
        alive1: active_count(ms, 1, true) as u32,
        total1: active_count(ms, 1, false) as u32,
        alive2: active_count(ms, 2, true) as u32,
        total2: active_count(ms, 2, false) as u32,
    }
}

/// The outcome of a tick with counts `c`: nothing happens until both teams
/// have an active player; then a team that has been wiped out loses to a
/// team that has not, and two wiped-out teams draw.
pub open spec fn outcome_of(c: TeamCounts) -> RoundOutcome {
    if c.total1 == 0 || c.total2 == 0 {
        RoundOutcome::Continue
    } else if c.alive1 == 0 && c.alive2 > 0 {
        RoundOutcome::Team2Wins
    } else if c.alive2 == 0 && c.alive1 > 0 {
        RoundOutcome::Team1Wins
    } else if c.alive1 == 0 && c.alive2 == 0 {
        RoundOutcome::Draw
    } else {
        RoundOutcome::Continue
    }
}

proof fn lemma_active_count_bound(ms: Seq<Member>, team: u8, alive_only: bool)
    ensures
        active_count(ms, team, alive_only) <= ms.len(),
        active_count(ms, team, true) <= active_count(ms, team, false),
    decreases ms.len(),
{
    if ms.len() > 0 {
        lemma_active_count_bound(ms.drop_last(), team, alive_only);
    }
}

/// Count the active and the living players of each team; mid-game
/// spectators do not count.
pub fn count_active_teams(members: &[Member]) -> (r: TeamCounts)
    requires
        members@.len() <= 0xffff_ffff,
    ensures
        r == team_counts_of(members@),
{
    let mut c = TeamCounts { alive1: 0, total1: 0, alive2: 0, total2: 0 };
    let mut i: usize = 0;
    while i < members.len()
        invariant
            i <= members@.len(),
            members@.len() <= 0xffff_ffff,
            c == team_counts_of(members@.take(i as int)),
        decreases members@.len() - i,
    {
        let ghost before = members@.take(i as int);
        proof {
            assert(members@.take(i + 1).drop_last() =~= before);
            lemma_active_count_bound(before, 1, true);
            lemma_active_count_bound(before, 1, false);
            lemma_active_count_bound(before, 2, true);
            lemma_active_count_bound(before, 2, false);
        }
        let m = members[i];
        if !m.is_spectator {
            if m.team == 1 {
                c.total1 = c.total1 + 1;
                if m.health > 0 {
                    c.alive1 = c.alive1 + 1;
                }
            } else if m.team == 2 {
                c.total2 = c.total2 + 1;
                if m.health > 0 {
                    c.alive2 = c.alive2 + 1;
                }
            }
        }
        i = i + 1;
    }
    proof {
        assert(members@.take(i as int) =~= members@);
    }
    c
}

/// Decide whether this tick ends the round.
pub fn round_outcome(c: TeamCounts) -> (r: RoundOutcome)
    ensures
        r == outcome_of(c),
{
    if c.total1 == 0 || c.total2 == 0 {
        return RoundOutcome::Continue;
    }
    if c.alive1 == 0 && c.alive2 > 0 {
        RoundOutcome::Team2Wins
    } else if c.alive2 == 0 && c.alive1 > 0 {
        RoundOutcome::Team1Wins
    } else if c.alive1 == 0 && c.alive2 == 0 {
        RoundOutcome::Draw
    } else {
        RoundOutcome::Continue
    }
}

} // verus!
