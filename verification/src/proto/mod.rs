//! Packet types shared by client and server.

pub mod client;
pub mod handshake;
pub mod lobby;
pub mod server;

use vstd::prelude::*;

verus! {

/// Movement speed tier shared by [`client::InputFlags`] and the server's
/// movement state bitfield.
///
/// ```text
/// 0 = SlowWalk  (crouched / sneak)
/// 1 = Walk      (default pace)
/// 2 = Run       (sprint)
/// 3 = reserved
/// ```
#[derive(Debug, Clone, Copy, PartialEq, Eq, Structural)]
pub enum MoveSpeed {
    SlowWalk,
    Walk,
    Run,
}

impl MoveSpeed {
    /// The tier number of this speed on the wire.
    pub open spec fn spec_code(self) -> u8 {
        match self {
            MoveSpeed::SlowWalk => 0,
            MoveSpeed::Walk => 1,
            MoveSpeed::Run => 2,
        }
    }

    /// The speed that the two low bits of `v` name; the reserved value 3
    /// falls back to `Walk`.
    pub open spec fn spec_from_u8(v: u8) -> MoveSpeed {
        let low = v % 4;
        if low == 0 {
            MoveSpeed::SlowWalk
        } else if low == 2 {
            MoveSpeed::Run
        } else {
            MoveSpeed::Walk
        }
    }

    /// Tier number of this speed (`0`, `1` or `2`).
    pub fn code(self) -> (r: u8)
        ensures
            r == self.spec_code(),
    {
        match self {
            MoveSpeed::SlowWalk => 0,
            MoveSpeed::Walk => 1,
            MoveSpeed::Run => 2,
        }
    }

    /// Decodes the lower 2 bits of `v`; unknown value 3 falls back to `Walk`.
    pub fn from_u8(v: u8) -> (r: MoveSpeed)
        ensures
            r == MoveSpeed::spec_from_u8(v),
    {
        let low = v % 4;
        if low == 0 {
            MoveSpeed::SlowWalk
        } else if low == 1 {
            MoveSpeed::Walk
        } else if low == 2 {
            MoveSpeed::Run
        } else {
            MoveSpeed::Walk
        }
    }

    /// The default speed tier: `Walk`.
    pub fn default_speed() -> (r: MoveSpeed)
        ensures
            r == MoveSpeed::Walk,
    {
        MoveSpeed::Walk
    }
}

/// Decoding the code of a speed gives the speed back.
pub proof fn lemma_move_speed_code_roundtrip(s: MoveSpeed)
    ensures
        MoveSpeed::spec_from_u8(s.spec_code()) == s,
{
}

} // verus!
