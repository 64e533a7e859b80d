//! Client → server input packet.

use vstd::prelude::*;
use super::MoveSpeed;

verus! {

/// Packet sent from client → server every input tick (11 bytes on the wire).
///
/// Wire layout (big-endian):
///   [sequence: u16] [timestamp: u32] [movement_x: i8] [movement_y: i8]
///   [rotation: u16] [flags: u8]
#[derive(Debug, Clone, Copy, PartialEq, Eq, Structural)]
pub struct ClientPacket {
    /// Monotonically increasing per-client sequence number; wraps at `u16::MAX`.
    pub sequence: u16,
    /// Client-local time in milliseconds, echoed back in the server snapshot.
    pub timestamp: u32,
    /// Horizontal movement intent: `-1` (left) · `0` (still) · `1` (right).
    pub movement_x: i8,
    /// Vertical movement intent: `-1` (up) · `0` (still) · `1` (down).
    pub movement_y: i8,
    /// Aim direction compressed to a full circle in `[0, 65535]`.
    pub rotation: u16,
    /// Packed action bits; see [`InputFlags`].
    pub flags: InputFlags,
}

/// Bitfield carried inside [`ClientPacket::flags`].
///
/// ```text
/// bit 0   : SHOOTING
/// bit 1   : RELOADING
/// bits 2-3: MOVE_SPEED  (0 = SlowWalk · 1 = Walk · 2 = Run · 3 = reserved)
/// bit 4   : PEEKING
/// bits 5-7: weapon slot index (0-7)
/// ```
#[derive(Debug, Clone, Copy, PartialEq, Eq, Structural)]
pub struct InputFlags(pub u8);

impl Default for InputFlags {
    /// No action bit set.
    fn default() -> (r: InputFlags)
        ensures
            r.0 == 0,
    {
        InputFlags(0)
    }
}

/// Whether bit `k` of `v` is set.
pub open spec fn bit_set(v: u8, k: u8) -> bool {
    (v >> k) & 1u8 == 1u8
}

impl InputFlags {
    /// The flags with no bit set.
    pub fn empty() -> (r: InputFlags)
        ensures
            r.0 == 0,
    {
        InputFlags(0)
    }

    /// Bit 0: the trigger is held.
    pub open spec fn spec_shooting(self) -> bool {
        bit_set(self.0, 0)
    }

    /// Bit 1: a reload is requested.
    pub open spec fn spec_reloading(self) -> bool {
        bit_set(self.0, 1)
    }

    /// Bits 2-3: the raw speed tier.
    pub open spec fn spec_speed_bits(self) -> u8 {
        (self.0 >> 2u8) & 3u8
    }

    /// Bit 4: the player is peeking.
    pub open spec fn spec_peeking(self) -> bool {
        bit_set(self.0, 4)
    }

    /// The speed tier that bits 2-3 name.
    pub open spec fn spec_move_speed(self) -> MoveSpeed {
        MoveSpeed::spec_from_u8((self.0 >> 2u8) & 3)
    }

    pub open spec fn spec_weapon_slot(self) -> u8 {
        (self.0 >> 5u8) & 7u8
    }

    pub fn is_shooting(self) -> (r: bool)
        ensures
            r == bit_set(self.0, 0),
    {
        (self.0 >> 0u8) & 1u8 == 1u8
    }

    pub fn is_reloading(self) -> (r: bool)
        ensures
            r == bit_set(self.0, 1),
    {
        (self.0 >> 1u8) & 1u8 == 1u8
    }

    /// Returns the active movement speed tier (bits 2-3).
    pub fn move_speed(self) -> (r: MoveSpeed)
        ensures
            r == self.spec_move_speed(),
    {
        MoveSpeed::from_u8((self.0 >> 2u8) & 3u8)
    }

    pub fn is_peeking(self) -> (r: bool)
        ensures
            r == bit_set(self.0, 4),
    {
        (self.0 >> 4u8) & 1u8 == 1u8
    }

    /// Returns the active weapon slot index in `[0, 7]` (bits 5-7).
    pub fn weapon_slot(self) -> (r: u8)
        ensures
            r == self.spec_weapon_slot(),
            r <= 7,
    {
        let v = self.0;
        assert((v >> 5u8) & 7u8 <= 7u8) by (bit_vector);
        (v >> 5u8) & 7u8
    }

    pub fn set_shooting(&mut self, v: bool)
        ensures
            final(self).spec_shooting() == v,
            final(self).spec_reloading() == old(self).spec_reloading(),
            final(self).spec_speed_bits() == old(self).spec_speed_bits(),
            final(self).spec_peeking() == old(self).spec_peeking(),
            final(self).spec_weapon_slot() == old(self).spec_weapon_slot(),
    {
        let b = self.0;
        let n = if v { b | 1 } else { b & 0xfe };
        assert(n == (if v { b | 1 } else { b & 0xfe }) ==> (bit_set(n, 0) == v && bit_set(n, 1)
            == bit_set(b, 1) && (n >> 2u8) & 3 == (b >> 2u8) & 3 && bit_set(n, 4) == bit_set(b, 4)
            && (n >> 5u8) & 7 == (b >> 5u8) & 7)) by (bit_vector);
        self.0 = n;
    }

    pub fn set_reloading(&mut self, v: bool)
        ensures
            final(self).spec_shooting() == old(self).spec_shooting(),
            final(self).spec_reloading() == v,
            final(self).spec_speed_bits() == old(self).spec_speed_bits(),
            final(self).spec_peeking() == old(self).spec_peeking(),
            final(self).spec_weapon_slot() == old(self).spec_weapon_slot(),
    {
        let b = self.0;
        let n = if v { b | 2 } else { b & 0xfd };
        assert(n == (if v { b | 2 } else { b & 0xfd }) ==> (bit_set(n, 0) == bit_set(b, 0)
            && bit_set(n, 1) == v && (n >> 2u8) & 3 == (b >> 2u8) & 3 && bit_set(n, 4) == bit_set(
            b,
            4,
        ) && (n >> 5u8) & 7 == (b >> 5u8) & 7)) by (bit_vector);
        self.0 = n;
    }

    /// Encodes the movement speed tier into bits 2-3.
    pub fn set_move_speed(&mut self, speed: MoveSpeed)
        ensures
            final(self).spec_shooting() == old(self).spec_shooting(),
            final(self).spec_reloading() == old(self).spec_reloading(),
            final(self).spec_speed_bits() == speed.spec_code(),
            final(self).spec_move_speed() == speed,
            final(self).spec_peeking() == old(self).spec_peeking(),
            final(self).spec_weapon_slot() == old(self).spec_weapon_slot(),
    {
        let b = self.0;
        let c = speed.code();
        let n = (b & 0xf3) | ((c << 2) & 0x0c);
        assert(c <= 2 && n == (b & 0xf3) | ((c << 2u8) & 0x0c) ==> (bit_set(n, 0) == bit_set(b, 0)
            && bit_set(n, 1) == bit_set(b, 1) && (n >> 2u8) & 3 == c && bit_set(n, 4) == bit_set(
            b,
            4,
        ) && (n >> 5u8) & 7 == (b >> 5u8) & 7)) by (bit_vector);
        self.0 = n;
    }

    pub fn set_peeking(&mut self, v: bool)
        ensures
            final(self).spec_shooting() == old(self).spec_shooting(),
            final(self).spec_reloading() == old(self).spec_reloading(),
            final(self).spec_speed_bits() == old(self).spec_speed_bits(),
            final(self).spec_peeking() == v,
            final(self).spec_weapon_slot() == old(self).spec_weapon_slot(),
    {
        let b = self.0;
        let n = if v { b | 16 } else { b & 0xef };
        assert(n == (if v { b | 16 } else { b & 0xef }) ==> (bit_set(n, 0) == bit_set(b, 0)
            && bit_set(n, 1) == bit_set(b, 1) && (n >> 2u8) & 3 == (b >> 2u8) & 3 && bit_set(n, 4)
            == v && (n >> 5u8) & 7 == (b >> 5u8) & 7)) by (bit_vector);
        self.0 = n;
    }

    /// Stores `slot` in bits 5-7, clamped to `[0, 7]`.
    pub fn set_weapon_slot(&mut self, slot: u8)
        ensures
            final(self).spec_shooting() == old(self).spec_shooting(),
            final(self).spec_reloading() == old(self).spec_reloading(),
            final(self).spec_speed_bits() == old(self).spec_speed_bits(),
            final(self).spec_peeking() == old(self).spec_peeking(),
            final(self).spec_weapon_slot() == (if slot < 7 { slot } else { 7u8 }),
    {
        let b = self.0;
        let s: u8 = if slot < 7 { slot } else { 7 };
        let n = (b & 0x1f) | ((s << 5) & 0xe0);
        assert(s <= 7 && n == (b & 0x1f) | ((s << 5u8) & 0xe0) ==> (bit_set(n, 0) == bit_set(b, 0)
            && bit_set(n, 1) == bit_set(b, 1) && (n >> 2u8) & 3 == (b >> 2u8) & 3 && bit_set(n, 4)
            == bit_set(b, 4) && (n >> 5u8) & 7 == s)) by (bit_vector);
        self.0 = n;
    }
}

/// The five fields of the flags byte determine it: two flag bytes that agree
/// on shooting, reloading, speed bits, peeking and weapon slot are equal.
pub proof fn lemma_input_flags_fields_determine_byte(a: InputFlags, b: InputFlags)
    requires
        a.spec_shooting() == b.spec_shooting(),
        a.spec_reloading() == b.spec_reloading(),
        a.spec_speed_bits() == b.spec_speed_bits(),
        a.spec_peeking() == b.spec_peeking(),
        a.spec_weapon_slot() == b.spec_weapon_slot(),
    ensures
        a == b,
{
    let x = a.0;
    let y = b.0;
    assert((bit_set(x, 0) == bit_set(y, 0) && bit_set(x, 1) == bit_set(y, 1) && (x >> 2u8) & 3 == (
    y >> 2u8) & 3 && bit_set(x, 4) == bit_set(y, 4) && (x >> 5u8) & 7 == (y >> 5u8) & 7) ==> x == y)
        by (bit_vector);
}

} // verus!
