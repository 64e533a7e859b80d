//! What direction an entity wants to move this frame.

use vstd::prelude::*;

verus! {

/// What direction an entity wants to move this frame.
/// Produced by a player controller, an AI, a replay system, etc.
#[derive(Debug, Clone, Copy, PartialEq, Eq, Structural)]
pub struct MovementInput {
    pub up: bool,
    pub down: bool,
    pub left: bool,
    pub right: bool,
}

impl Default for MovementInput {
    /// No direction pressed.
    fn default() -> (r: MovementInput)
        ensures
            !r.up && !r.down && !r.left && !r.right,
    {
        MovementInput { up: false, down: false, left: false, right: false }
    }
}

/// The axis value of a pair of opposite keys: the positive key wins over
/// the negative one.
pub open spec fn axis(positive: bool, negative: bool) -> i8 {
    if positive {
        1
    } else if negative {
        -1i8
    } else {
        0
    }
}

impl MovementInput {
    /// The direction of travel as integer axes `(x, y)`, `y` pointing down:
    /// right beats left and down beats up.
    pub fn axes(&self) -> (r: (i8, i8))
        ensures
            r == (axis(self.right, self.left), axis(self.down, self.up)),
    {
        let vx: i8 = if self.right {
            1
        } else if self.left {
            -1
        } else {
            0
        };
        let vy: i8 = if self.down {
            1
        } else if self.up {
            -1
        } else {
            0
        };
        (vx, vy)
    }

    /// Whether the entity moves at full speed this frame: some axis is not
    /// zero. (A diagonal counts as full speed.)
    pub fn is_moving(&self) -> (r: bool)
        ensures
            r == (axis(self.right, self.left) != 0 || axis(self.down, self.up) != 0),
    {
        let (vx, vy) = self.axes();
        vx != 0 || vy != 0
    }
}

} // verus!
