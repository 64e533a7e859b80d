//! Server → client snapshot packet and its parts.
//!
//! Positions, distances and angles travel as IEEE-754 single-precision
//! values; this library carries each of them as the `u32` bit pattern that
//! goes on the wire (`f32::to_bits` / `f32::from_bits` convert at the edge).

use vstd::prelude::*;
use super::MoveSpeed;
use super::client::bit_set;

verus! {

/// Full game-state snapshot sent from server → client every tick.
///
/// Wire layout (big-endian):
///   [tick: u32] [timestamp: u32]
///   [self_state: 18 B]
///   [player_count: u8] [players: player_count × 15 B]
///   [bullet_count: u8] [bullets: bullet_count × 21 B]
///   [sound_count:  u8] [sounds:  sound_count  × 10 B]
///   [teammate_count: u8] [teammates: teammate_count × 22 B]
///   [match_state: 4 B]
///
/// At most 255 entries of each list go on the wire.
#[derive(Debug, Clone)]
pub struct ServerPacket {
    /// Server authoritative tick counter; monotonically increasing.
    pub tick: u32,
    /// The `ClientPacket::timestamp` of the most recently processed input.
    pub timestamp: u32,
    /// State specific to the receiving client's own player.
    pub me: SelfState,
    /// All other visible players (not the receiving client).
    pub players: Vec<PlayerState>,
    /// Projectile traces resolved this tick.
    pub bullets: Vec<BulletEvent>,
    /// Spatial sound events the client should play.
    pub sounds: Vec<SoundEvent>,
    /// Sight cones of living teammates, for shared-vision fog-of-war.
    pub teammate_views: Vec<TeammateView>,
    /// Current match metadata.
    pub match_state: MatchState,
}

/// The mathematical content of a [`ServerPacket`]: its lists as sequences.
pub struct ServerPacketView {
    pub tick: u32,
    pub timestamp: u32,
    pub me: SelfState,
    pub players: Seq<PlayerState>,
    pub bullets: Seq<BulletEvent>,
    pub sounds: Seq<SoundEvent>,
    pub teammate_views: Seq<TeammateView>,
    pub match_state: MatchState,
}

impl View for ServerPacket {
    type V = ServerPacketView;

    open spec fn view(&self) -> ServerPacketView {
        ServerPacketView {
            tick: self.tick,
            timestamp: self.timestamp,
            me: self.me,
            players: self.players@,
            bullets: self.bullets@,
            sounds: self.sounds@,
            teammate_views: self.teammate_views@,
            match_state: self.match_state,
        }
    }
}

/// Sight cone of one living teammate (22 bytes on the wire).
///
/// Wire layout: [x: f32] [y: f32] [rotation: u16]
///              [sight_range: f32] [sight_half_angle: f32] [sight_circle_radius: f32]
#[derive(Debug, Clone, Copy, PartialEq, Eq, Structural)]
pub struct TeammateView {
    /// Bits of the f32 position X.
    pub x: u32,
    /// Bits of the f32 position Y.
    pub y: u32,
    /// Aim direction compressed to `[0, 65535]`.
    pub rotation: u16,
    /// Bits of the f32 sight range.
    pub sight_range: u32,
    /// Bits of the f32 sight half angle, in radians.
    pub sight_half_angle: u32,
    /// Bits of the f32 sight circle radius.
    pub sight_circle_radius: u32,
}

/// The local player's authoritative state (18 bytes on the wire).
///
/// Wire layout: [health: u8] [ammo: u8] [reload_progress: u8] [movement_state: u8]
///              [x: f32] [y: f32] [rotation: u16] [aim_cone_half_angle: f32]
#[derive(Debug, Clone, Copy, PartialEq, Eq, Structural)]
pub struct SelfState {
    /// Current health; `0` means dead.
    pub health: u8,
    /// Rounds remaining in the active magazine.
    pub ammo: u8,
    /// Reload progress: `0` = not reloading, `255` = fully complete.
    pub reload_progress: u8,
    /// Packed locomotion + action flags; see [`MovementState`].
    pub movement_state: MovementState,
    /// Bits of the f32 position X in tiles.
    pub x: u32,
    /// Bits of the f32 position Y in tiles.
    pub y: u32,
    /// Aim direction compressed to `[0, 65535]`.
    pub rotation: u16,
    /// Bits of the f32 aim-cone half-angle in radians.
    pub aim_cone_half_angle: u32,
}

/// One remote player's state (15 bytes on the wire).
///
/// Wire layout: [id: u16] [x: f32] [y: f32] [rotation: u16] [movement_state: u8] [weapon: u8] [team: u8]
#[derive(Debug, Clone, Copy, PartialEq, Eq, Structural)]
pub struct PlayerState {
    /// Server-assigned player identifier (`0` is reserved / invalid).
    pub id: u16,
    /// Bits of the f32 position X in tiles.
    pub x: u32,
    /// Bits of the f32 position Y in tiles.
    pub y: u32,
    /// Aim direction compressed to `[0, 65535]`.
    pub rotation: u16,
    /// Packed locomotion flags; see [`MovementState`].
    pub movement_state: MovementState,
    /// Index into the server's weapon catalogue.
    pub weapon: u8,
    /// Team assignment (`0` = none, `1` = team 1, `2` = team 2).
    pub team: u8,
}

/// A hitscan trace resolved this tick (21 bytes on the wire).
///
/// Wire layout:
///   [shooter_id: u16] [from_x: f32] [from_y: f32]
///   [to_x: f32] [to_y: f32] [hit_player_id: u16] [shooter_team: u8]
#[derive(Debug, Clone, Copy, PartialEq, Eq, Structural)]
pub struct BulletEvent {
    /// Id of the shooter (`0` = environment / unknown).
    pub shooter_id: u16,
    /// Bits of the f32 muzzle position X.
    pub from_x: u32,
    /// Bits of the f32 muzzle position Y.
    pub from_y: u32,
    /// Bits of the f32 impact position X.
    pub to_x: u32,
    /// Bits of the f32 impact position Y.
    pub to_y: u32,
    /// Victim's id; `0` means the shot missed all players.
    pub hit_player_id: u16,
    /// Shooter's team (`0` = no team / unknown).
    pub shooter_team: u8,
}

/// A spatial audio event the client should play (10 bytes on the wire).
///
/// Wire layout: [kind: u8] [x: f32] [y: f32] [intensity: u8]
#[derive(Debug, Clone, Copy, PartialEq, Eq, Structural)]
pub struct SoundEvent {
    /// Sound category; see [`SoundKind`].
    pub kind: SoundKind,
    /// Bits of the f32 position X.
    pub x: u32,
    /// Bits of the f32 position Y.
    pub y: u32,
    /// Volume/falloff hint in `[0, 255]`.
    pub intensity: u8,
}

/// Match-level metadata (4 bytes on the wire).
///
/// Wire layout: [timer: u16] [score_team1: u8] [score_team2: u8]
#[derive(Debug, Clone, Copy, PartialEq, Eq, Structural)]
pub struct MatchState {
    /// Remaining time in seconds; `0` means the round has ended.
    pub timer: u16,
    /// Current score for team 1.
    pub score_team1: u8,
    /// Current score for team 2.
    pub score_team2: u8,
}

/// Bitfield of a player's locomotion and action state (1 byte on the wire).
///
/// ```text
/// bits 0-1: MOVE_SPEED  (0 = SlowWalk · 1 = Walk · 2 = Run · 3 = reserved)
/// bit 2   : PEEKING
/// bit 3   : RELOADING
/// bits 4-7: reserved
/// ```
#[derive(Debug, Clone, Copy, PartialEq, Eq, Structural)]
pub struct MovementState(pub u8);

impl Default for MovementState {
    /// Walking slowly, not peeking, not reloading.
    fn default() -> (r: MovementState)
        ensures
            r.0 == 0,
    {
        MovementState(0)
    }
}

impl MovementState {
    /// Bits 0-1: the raw speed tier.
    pub open spec fn spec_speed_bits(self) -> u8 {
        self.0 & 3u8
    }

    /// Bit 2: the player is peeking.
    pub open spec fn spec_peeking(self) -> bool {
        bit_set(self.0, 2)
    }

    /// Bit 3: the player is reloading.
    pub open spec fn spec_reloading(self) -> bool {
        bit_set(self.0, 3)
    }

    /// Bits 4-7, reserved.
    pub open spec fn spec_reserved(self) -> u8 {
        self.0 >> 4u8
    }

    /// The movement state with no bit set.
    pub fn empty() -> (r: MovementState)
        ensures
            r.0 == 0,
    {
        MovementState(0)
    }

    /// Returns the movement speed tier (bits 0-1).
    pub fn move_speed(self) -> (r: MoveSpeed)
        ensures
            r == MoveSpeed::spec_from_u8(self.spec_speed_bits()),
    {
        MoveSpeed::from_u8(self.0 & 3u8)
    }

    pub fn is_peeking(self) -> (r: bool)
        ensures
            r == self.spec_peeking(),
    {
        (self.0 >> 2u8) & 1u8 == 1u8
    }

    pub fn is_reloading(self) -> (r: bool)
        ensures
            r == self.spec_reloading(),
    {
        (self.0 >> 3u8) & 1u8 == 1u8
    }

    /// Encodes the movement speed tier into bits 0-1.
    pub fn set_move_speed(&mut self, speed: MoveSpeed)
        ensures
            final(self).spec_speed_bits() == speed.spec_code(),
            final(self).spec_peeking() == old(self).spec_peeking(),
            final(self).spec_reloading() == old(self).spec_reloading(),
            final(self).spec_reserved() == old(self).spec_reserved(),
    {
        let b = self.0;
        let c = speed.code();
        let n = (b & 0xfc) | (c & 3);
        assert(c <= 2 && n == (b & 0xfc) | (c & 3u8) ==> (n & 3u8 == c && bit_set(n, 2) == bit_set(
            b,
            2,
        ) && bit_set(n, 3) == bit_set(b, 3) && n >> 4u8 == b >> 4u8)) by (bit_vector);
        self.0 = n;
    }

    pub fn set_peeking(&mut self, v: bool)
        ensures
            final(self).spec_speed_bits() == old(self).spec_speed_bits(),
            final(self).spec_peeking() == v,
            final(self).spec_reloading() == old(self).spec_reloading(),
            final(self).spec_reserved() == old(self).spec_reserved(),
    {
        let b = self.0;
        let n = if v { b | 4 } else { b & 0xfb };
        assert(n == (if v { b | 4 } else { b & 0xfb }) ==> (n & 3u8 == b & 3u8 && bit_set(n, 2)
            == v && bit_set(n, 3) == bit_set(b, 3) && n >> 4u8 == b >> 4u8)) by (bit_vector);
        self.0 = n;
    }

    pub fn set_reloading(&mut self, v: bool)
        ensures
            final(self).spec_speed_bits() == old(self).spec_speed_bits(),
            final(self).spec_peeking() == old(self).spec_peeking(),
            final(self).spec_reloading() == v,
            final(self).spec_reserved() == old(self).spec_reserved(),
    {
        let b = self.0;
        let n = if v { b | 8 } else { b & 0xf7 };
        assert(n == (if v { b | 8 } else { b & 0xf7 }) ==> (n & 3u8 == b & 3u8 && bit_set(n, 2)
            == bit_set(b, 2) && bit_set(n, 3) == v && n >> 4u8 == b >> 4u8)) by (bit_vector);
        self.0 = n;
    }
}

/// The speed bits, the peeking and reloading bits and the reserved nibble
/// determine a movement state byte.
pub proof fn lemma_movement_state_fields_determine_byte(a: MovementState, b: MovementState)
    requires
        a.spec_speed_bits() == b.spec_speed_bits(),
        a.spec_peeking() == b.spec_peeking(),
        a.spec_reloading() == b.spec_reloading(),
        a.spec_reserved() == b.spec_reserved(),
    ensures
        a == b,
{
    let x = a.0;
    let y = b.0;
    assert((x & 3u8 == y & 3u8 && bit_set(x, 2) == bit_set(y, 2) && bit_set(x, 3) == bit_set(y, 3)
        && x >> 4u8 == y >> 4u8) ==> x == y) by (bit_vector);
}

/// Discriminant for [`SoundEvent::kind`].
#[derive(Debug, Clone, Copy, PartialEq, Eq, Structural)]
pub enum SoundKind {
    Gunshot,
    Reload,
    Footstep,
    Hit,
    Death,
}

impl SoundKind {
    /// Wire byte of this sound kind.
    pub open spec fn spec_code(self) -> u8 {
        match self {
            SoundKind::Gunshot => 0,
            SoundKind::Reload => 1,
            SoundKind::Footstep => 2,
            SoundKind::Hit => 3,
            SoundKind::Death => 4,
        }
    }

    /// The sound kind whose wire byte is `v`, if any.
    pub open spec fn spec_from_u8(v: u8) -> Option<SoundKind> {
        if v == 0 {
            Some(SoundKind::Gunshot)
        } else if v == 1 {
            Some(SoundKind::Reload)
        } else if v == 2 {
            Some(SoundKind::Footstep)
        } else if v == 3 {
            Some(SoundKind::Hit)
        } else if v == 4 {
            Some(SoundKind::Death)
        } else {
            None
        }
    }

    pub fn code(self) -> (r: u8)
        ensures
            r == self.spec_code(),
    {
        match self {
            SoundKind::Gunshot => 0,
            SoundKind::Reload => 1,
            SoundKind::Footstep => 2,
            SoundKind::Hit => 3,
            SoundKind::Death => 4,
        }
    }

    pub fn from_u8(v: u8) -> (r: Option<SoundKind>)
        ensures
            r == SoundKind::spec_from_u8(v),
    {
        match v {
            0 => Some(SoundKind::Gunshot),
            1 => Some(SoundKind::Reload),
            2 => Some(SoundKind::Footstep),
            3 => Some(SoundKind::Hit),
            4 => Some(SoundKind::Death),
            _ => None,
        }
    }
}

} // verus!
