//! The tactical camera's behaviour state.

use vstd::prelude::*;

verus! {

/// How the camera frames the player.
#[derive(Clone, Copy, Debug, Eq, PartialEq, Structural)]
pub enum CameraBehaviorState {
    Exploration,
    Combat,
    PeekTension,
}

impl CameraBehaviorState {
    /// The state the camera takes this frame: combat when the game asks for
    /// it, else peek tension near a gap, else what the game asks for.
    pub fn resolve(desired: CameraBehaviorState, near_gap: bool) -> (r: CameraBehaviorState)
        ensures
            r == (if desired == CameraBehaviorState::Combat {
                CameraBehaviorState::Combat
            } else if near_gap {
                CameraBehaviorState::PeekTension
            } else {
                desired
            }),
    {
        if desired == CameraBehaviorState::Combat {
            CameraBehaviorState::Combat
        } else if near_gap {
            CameraBehaviorState::PeekTension
        } else {
            desired
        }
    }
}

} // verus!
