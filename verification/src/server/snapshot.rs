//! The snapshot that one recipient is sent: who appears in it, the bytes of
//! its own state, and the packet itself.
//!
//! Whether an enemy lies in the recipient's sight cone, or in a teammate's,
//! is a floating-point line-of-sight test that the caller makes; it hands
//! the verdicts in, one per member.

use vstd::prelude::*;
use crate::proto::server::{
    BulletEvent, MatchState, MovementState, PlayerState, SelfState, ServerPacket, TeammateView,
};
use super::lobby::{Lobby, Member};

verus! {

/// A recipient that sees every living player: a spectator, or a dead player.
pub open spec fn sees_everyone(me: Member) -> bool {
    me.is_spectator || me.health == 0
}

/// `other` is on `me`'s team.
pub open spec fn is_teammate(me: Member, other: Member) -> bool {
    me.team != 0 && other.team == me.team
}

/// Member `j` appears in the snapshot of member `r`: it is someone else,
/// alive, and either `r` sees everyone, or `j` is a teammate, or `j` is in
/// sight (`seen[j]`).
pub open spec fn shown_to(ms: Seq<Member>, r: int, seen: Seq<bool>, j: int) -> bool {
    j != r && ms[j].health > 0 && (sees_everyone(ms[r]) || is_teammate(ms[r], ms[j]) || seen[j])
}

/// Member `j` lends its sight cone to member `r`: `r` is alive, not a
/// spectator and on a team, and `j` is another living member of that team.
pub open spec fn lends_sight(ms: Seq<Member>, r: int, j: int) -> bool {
    ms[r].team != 0 && !sees_everyone(ms[r]) && j != r && ms[j].health > 0 && ms[j].team
        == ms[r].team
}

/// The positions below `k` that satisfy `p`, in order.
pub open spec fn positions_below(k: int, p: spec_fn(int) -> bool) -> Seq<usize>
    decreases k,
{
    if k <= 0 {
        Seq::empty()
    } else if p(k - 1) {
        positions_below(k - 1, p).push((k - 1) as usize)
    } else {
        positions_below(k - 1, p)
    }
}

/// The members that recipient `recipient` is shown, in roster order.
pub fn visible_players(members: &[Member], recipient: usize, seen: &[bool]) -> (r: Vec<usize>)
    requires
        recipient < members@.len(),
        seen@.len() == members@.len(),
    ensures
        r@ == positions_below(
            members@.len() as int,
            |j: int| shown_to(members@, recipient as int, seen@, j),
        ),
{
    let me = members[recipient];
    let everyone = me.is_spectator || me.health == 0;
    let mut out: Vec<usize> = Vec::new();
    let mut j: usize = 0;
    while j < members.len()
        invariant
            recipient < members@.len(),
            seen@.len() == members@.len(),
            me == members@[recipient as int],
            everyone == sees_everyone(me),
            j <= members@.len(),
            out@ == positions_below(
                j as int,
                |i: int| shown_to(members@, recipient as int, seen@, i),
            ),
        decreases members@.len() - j,
    {
        let m = members[j];
        let teammate = me.team != 0 && m.team == me.team;
        if j != recipient && m.health > 0 && (everyone || teammate || seen[j]) {
            out.push(j);
        }
        j = j + 1;
    }
    out
}

/// The teammates whose sight cones recipient `recipient` shares, in roster
/// order.
pub fn sight_sharers(members: &[Member], recipient: usize) -> (r: Vec<usize>)
    requires
        recipient < members@.len(),
    ensures
        r@ == positions_below(members@.len() as int, |j: int| lends_sight(members@, recipient as int, j)),
{
    let me = members[recipient];
    let mut out: Vec<usize> = Vec::new();
    if me.team == 0 || me.is_spectator || me.health == 0 {
        proof {
            lemma_positions_none(members@.len() as int, |j: int| lends_sight(members@, recipient as int, j));
        }
        return out;
    }
    let mut j: usize = 0;
    while j < members.len()
        invariant
            recipient < members@.len(),
            me == members@[recipient as int],
            me.team != 0 && !sees_everyone(me),
            j <= members@.len(),
            out@ == positions_below(j as int, |i: int| lends_sight(members@, recipient as int, i)),
        decreases members@.len() - j,
    {
        let m = members[j];
        if j != recipient && m.health > 0 && m.team == me.team {
            out.push(j);
        }
        j = j + 1;
    }
    out
}

proof fn lemma_positions_none(k: int, p: spec_fn(int) -> bool)
    requires
        forall|i: int| 0 <= i < k ==> !#[trigger] p(i),
    ensures
        positions_below(k, p) == Seq::<usize>::empty(),
    decreases k,
{
    if k > 0 {
        lemma_positions_none(k - 1, p);
    }
}

/// Reload progress on the wire, from the time left of a reload and the
/// reload time (in the same unit): `0` when not reloading (no time left),
/// otherwise the part of the reload time that has passed, scaled to `255`
/// (rounded down, so `255` is reached only when the reload is complete).
pub open spec fn reload_progress(left: u32, total: u32) -> int {
    if left == 0 || left >= total {
        0
    } else {
        ((total - left) * 255) / (total as int)
    }
}

/// The recipient's own state as the snapshot carries it: health and ammo
/// capped at `255`, and the reload progress of its weapon given the time
/// left of the reload and the weapon's reload time, both in milliseconds.
pub fn self_state_bytes(health: u16, ammo: u32, reload_left_ms: u32, reload_time_ms: u32) -> (r: (
    u8,
    u8,
    u8,
))
    ensures
        r.0 == (if health > 255 { 255 } else { health }),
        r.1 == (if ammo > 255 { 255 } else { ammo }),
        r.2 == reload_progress(reload_left_ms, reload_time_ms),
{
    let h: u8 = if health > 255 {
        255
    } else {
        health as u8
    };
    let a: u8 = if ammo > 255 {
        255
    } else {
        ammo as u8
    };
    let p: u8 = if reload_left_ms == 0 || reload_left_ms >= reload_time_ms {
        0
    } else {
        let passed: u64 = (reload_time_ms - reload_left_ms) as u64;
        let total: u64 = reload_time_ms as u64;
        assert(passed * 255 <= 0xffff_ffff * 255) by (nonlinear_arith)
            requires
                passed <= 0xffff_ffff,
        ;
        let q: u64 = passed * 255 / total;
        assert(q < 255) by (nonlinear_arith)
            requires
                q as int == (passed * 255) as int / (total as int),
                0 < passed < total,
        ;
        q as u8
    };
    (h, a, p)
}

/// The client timestamp that the snapshot echoes: that of the member's
/// latest input, `0` before any.
pub fn echoed_timestamp(m: &Member) -> (r: u32)
    ensures
        r == (match m.latest_input {
            Some(p) => p.timestamp,
            None => 0,
        }),
{
    match m.latest_input {
        Some(p) => p.timestamp,
        None => 0,
    }
}

/// What the server keeps of a member beside the roster, as the wire carries
/// it: position and facing (floats as their bits), movement state, the
/// weapon's magazine and reload (in milliseconds), the aim cone and the
/// sight cone it lends to teammates.
#[derive(Debug, Clone, Copy)]
pub struct BodyState {
    pub x: u32,
    pub y: u32,
    pub rotation: u16,
    pub movement_state: MovementState,
    pub ammo: u32,
    pub reload_left_ms: u32,
    pub reload_time_ms: u32,
    pub aim_cone_half_angle: u32,
    pub sight_range: u32,
    pub sight_half_angle: u32,
    pub sight_circle_radius: u32,
}

/// `v` capped at `255`.
pub open spec fn cap_u8(v: int) -> u8 {
    if v > 255 {
        255
    } else {
        v as u8
    }
}

/// The recipient's own state in its snapshot.
pub open spec fn self_state_of(m: Member, b: BodyState) -> SelfState {
    SelfState {
        health: cap_u8(m.health as int),
        ammo: cap_u8(b.ammo as int),
        reload_progress: reload_progress(b.reload_left_ms, b.reload_time_ms) as u8,
        movement_state: b.movement_state,
        x: b.x,
        y: b.y,
        rotation: b.rotation,
        aim_cone_half_angle: b.aim_cone_half_angle,
    }
}

/// How another member appears in a snapshot.
pub open spec fn player_state_of(m: Member, b: BodyState) -> PlayerState {
    PlayerState {
        id: m.player_id,
        x: b.x,
        y: b.y,
        rotation: b.rotation,
        movement_state: b.movement_state,
        weapon: 0,
        team: m.team,
    }
}

/// The sight cone a teammate lends.
pub open spec fn teammate_view_of(b: BodyState) -> TeammateView {
    TeammateView {
        x: b.x,
        y: b.y,
        rotation: b.rotation,
        sight_range: b.sight_range,
        sight_half_angle: b.sight_half_angle,
        sight_circle_radius: b.sight_circle_radius,
    }
}

/// The snapshot for the member at `recipient` of the lobby, this tick.
///
/// `bodies` and `seen` go with the roster, one entry per member; `seen[j]`
/// is whether member `j` is in the recipient's or a teammate's sight. Every
/// bullet event of the tick goes to every recipient; no sound is sent;
/// `timer` is the match timer in whole seconds.
pub fn build_snapshot(
    tick: u32,
    bullets: &[BulletEvent],
    lobby: &Lobby,
    bodies: &[BodyState],
    recipient: usize,
    seen: &[bool],
    timer: u16,
) -> (r: ServerPacket)
    requires
        recipient < lobby@.members.len(),
        bodies@.len() == lobby@.members.len(),
        seen@.len() == lobby@.members.len(),
    ensures
        ({
            let ms = lobby@.members;
            let shown = positions_below(
                ms.len() as int,
                |j: int| shown_to(ms, recipient as int, seen@, j),
            );
            let lenders = positions_below(
                ms.len() as int,
                |j: int| lends_sight(ms, recipient as int, j),
            );
            &&& r.tick == tick
            &&& r.timestamp == (match ms[recipient as int].latest_input {
                Some(p) => p.timestamp,
                None => 0,
            })
            &&& r.me == self_state_of(ms[recipient as int], bodies@[recipient as int])
            &&& r.players@ == shown.map_values(
                |j: usize| player_state_of(ms[j as int], bodies@[j as int]),
            )
            &&& r.bullets@ == bullets@
            &&& r.sounds@.len() == 0
            &&& r.teammate_views@ == lenders.map_values(|j: usize| teammate_view_of(bodies@[j as int]))
            &&& r.match_state == MatchState {
                timer,
                score_team1: lobby@.team1_rounds,
                score_team2: lobby@.team2_rounds,
            }
        }),
        // Each entry carries the shown member's own id and team, and its own
        // body's position, facing and movement state.
        ({
            let ms = lobby@.members;
            let shown = positions_below(
                ms.len() as int,
                |j: int| shown_to(ms, recipient as int, seen@, j),
            );
            &&& r.players@.len() == shown.len()
            &&& forall|k: int|
                0 <= k < r.players@.len() ==> {
                    let j = shown[k] as int;
                    &&& 0 <= j < ms.len()
                    &&& j != recipient as int
                    &&& ms[j].health > 0
                    &&& (#[trigger] r.players@[k]).id == ms[j].player_id
                    &&& r.players@[k].team == ms[j].team
                    &&& r.players@[k].x == bodies@[j].x
                    &&& r.players@[k].y == bodies@[j].y
                    &&& r.players@[k].rotation == bodies@[j].rotation
                    &&& r.players@[k].movement_state == bodies@[j].movement_state
                    &&& r.players@[k].weapon == 0
                }
        }),
        ({
            let ms = lobby@.members;
            let lenders = positions_below(
                ms.len() as int,
                |j: int| lends_sight(ms, recipient as int, j),
            );
            &&& r.teammate_views@.len() == lenders.len()
            &&& forall|k: int|
                0 <= k < r.teammate_views@.len() ==> {
                    let j = lenders[k] as int;
                    &&& 0 <= j < ms.len()
                    &&& (#[trigger] r.teammate_views@[k]).x == bodies@[j].x
                    &&& r.teammate_views@[k].y == bodies@[j].y
                    &&& r.teammate_views@[k].rotation == bodies@[j].rotation
                    &&& r.teammate_views@[k].sight_range == bodies@[j].sight_range
                    &&& r.teammate_views@[k].sight_half_angle == bodies@[j].sight_half_angle
                    &&& r.teammate_views@[k].sight_circle_radius == bodies@[j].sight_circle_radius
                }
        }),
        r.me.x == bodies@[recipient as int].x,
        r.me.y == bodies@[recipient as int].y,
        r.me.rotation == bodies@[recipient as int].rotation,
        r.me.movement_state == bodies@[recipient as int].movement_state,
        r.me.aim_cone_half_angle == bodies@[recipient as int].aim_cone_half_angle,
        r.me.health as int == (if lobby@.members[recipient as int].health > 255 {
            255
        } else {
            lobby@.members[recipient as int].health as int
        }),
        r.me.ammo as int == (if bodies@[recipient as int].ammo > 255 {
            255
        } else {
            bodies@[recipient as int].ammo as int
        }),
{
    let members = lobby.members();
    let ghost ms = members@;
    let me = members[recipient];
    let body = bodies[recipient];
    let (health, ammo, reload) = self_state_bytes(
        me.health,
        body.ammo,
        body.reload_left_ms,
        body.reload_time_ms,
    );
    let shown = visible_players(members, recipient, seen);
    let ghost fs = |j: usize| player_state_of(ms[j as int], bodies@[j as int]);
    let mut players: Vec<PlayerState> = Vec::new();
    let mut i: usize = 0;
    while i < shown.len()
        invariant
            ms == members@,
            ms.len() <= usize::MAX,
            bodies@.len() == ms.len(),
            shown@ == positions_below(
                ms.len() as int,
                |j: int| shown_to(ms, recipient as int, seen@, j),
            ),
            i <= shown@.len(),
            fs == (|j: usize| player_state_of(ms[j as int], bodies@[j as int])),
            players@ == shown@.take(i as int).map_values(fs),
        decreases shown@.len() - i,
    {
        let j = shown[i];
        proof {
            assert(shown@.contains(j));
            lemma_positions_below_only(
                ms.len() as int,
                |j: int| shown_to(ms, recipient as int, seen@, j),
                j,
            );
        }
        let m = members[j];
        let b = bodies[j];
        players.push(
            PlayerState {
                id: m.player_id,
                x: b.x,
                y: b.y,
                rotation: b.rotation,
                movement_state: b.movement_state,
                weapon: 0,
                team: m.team,
            },
        );
        proof {
            assert(players@[i as int] == fs(j));
            assert(shown@.take(i + 1) =~= shown@.take(i as int).push(j));
            assert(players@ =~= shown@.take(i + 1).map_values(fs));
        }
        i = i + 1;
    }
    proof {
        assert(shown@.take(i as int) =~= shown@);
    }
    let lenders = sight_sharers(members, recipient);
    let ghost ft = |j: usize| teammate_view_of(bodies@[j as int]);
    let mut views: Vec<TeammateView> = Vec::new();
    let mut i: usize = 0;
    while i < lenders.len()
        invariant
            ms == members@,
            ms.len() <= usize::MAX,
            bodies@.len() == ms.len(),
            lenders@ == positions_below(ms.len() as int, |j: int| lends_sight(ms, recipient as int, j)),
            i <= lenders@.len(),
            ft == (|j: usize| teammate_view_of(bodies@[j as int])),
            views@ == lenders@.take(i as int).map_values(ft),
        decreases lenders@.len() - i,
    {
        let j = lenders[i];
        proof {
            assert(lenders@.contains(j));
            lemma_positions_below_only(
                ms.len() as int,
                |j: int| lends_sight(ms, recipient as int, j),
                j,
            );
        }
        let b = bodies[j];
        views.push(
            TeammateView {
                x: b.x,
                y: b.y,
                rotation: b.rotation,
                sight_range: b.sight_range,
                sight_half_angle: b.sight_half_angle,
                sight_circle_radius: b.sight_circle_radius,
            },
        );
        proof {
            assert(views@[i as int] == ft(j));
            assert(lenders@.take(i + 1) =~= lenders@.take(i as int).push(j));
            assert(views@ =~= lenders@.take(i + 1).map_values(ft));
        }
        i = i + 1;
    }
    proof {
        assert(lenders@.take(i as int) =~= lenders@);
    }
    let mut tracers: Vec<BulletEvent> = Vec::new();
    let mut i: usize = 0;
    while i < bullets.len()
        invariant
            i <= bullets@.len(),
            tracers@ == bullets@.take(i as int),
        decreases bullets@.len() - i,
    {
        tracers.push(bullets[i]);
        proof {
            assert(bullets@.take(i + 1) =~= bullets@.take(i as int).push(bullets@[i as int]));
        }
        i = i + 1;
    }
    proof {
        assert(bullets@.take(i as int) =~= bullets@);
    }
    let (t1, t2) = lobby.rounds();
    proof {
        let shown_s = shown@;
        assert forall|k: int| 0 <= k < players@.len() implies 0 <= shown_s[k] < ms.len() && shown_to(
            ms,
            recipient as int,
            seen@,
            shown_s[k] as int,
        ) by {
            assert(shown_s.contains(shown_s[k]));
            lemma_positions_below_only(
                ms.len() as int,
                |j: int| shown_to(ms, recipient as int, seen@, j),
                shown_s[k],
            );
        }
        let lend_s = lenders@;
        assert forall|k: int| 0 <= k < views@.len() implies 0 <= #[trigger] lend_s[k] < ms.len() by {
            assert(lend_s.contains(lend_s[k]));
            lemma_positions_below_only(
                ms.len() as int,
                |j: int| lends_sight(ms, recipient as int, j),
                lend_s[k],
            );
        }
    }
    ServerPacket {
        tick,
        timestamp: echoed_timestamp(&me),
        me: SelfState {
            health,
            ammo,
            reload_progress: reload,
            movement_state: body.movement_state,
            x: body.x,
            y: body.y,
            rotation: body.rotation,
            aim_cone_half_angle: body.aim_cone_half_angle,
        },
        players,
        bullets: tracers,
        sounds: Vec::new(),
        teammate_views: views,
        match_state: MatchState { timer, score_team1: t1, score_team2: t2 },
    }
}

/// The positions that satisfy `p` are among the positions below `k`.
pub proof fn lemma_positions_below_has(k: int, p: spec_fn(int) -> bool, i: int)
    requires
        0 <= i < k,
        p(i),
    ensures
        positions_below(k, p).contains(i as usize),
    decreases k,
{
    if i == k - 1 {
        assert(positions_below(k, p).last() == i as usize);
    } else {
        lemma_positions_below_has(k - 1, p, i);
        let prev = positions_below(k - 1, p);
        let j = choose|j: int| 0 <= j < prev.len() && prev[j] == i as usize;
        if p(k - 1) {
            assert(positions_below(k, p)[j] == i as usize);
        }
    }
}

/// Every position among the positions below `k` satisfies `p`.
pub proof fn lemma_positions_below_only(k: int, p: spec_fn(int) -> bool, x: usize)
    requires
        k <= usize::MAX as int + 1,
        positions_below(k, p).contains(x),
    ensures
        (x as int) < k,
        p(x as int),
    decreases k,
{
    if k > 0 {
        let prev = positions_below(k - 1, p);
        if p(k - 1) && x == (k - 1) as usize {
        } else {
            if p(k - 1) {
                let j = choose|j: int| 0 <= j < positions_below(k, p).len() && positions_below(k, p)[j] == x;
                assert(j < prev.len());
                assert(prev[j] == x);
            }
            lemma_positions_below_only(k - 1, p, x);
        }
    }
}

} // verus!
