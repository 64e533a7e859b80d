//! The movement state that the server reports for each player.

use vstd::prelude::*;
use crate::proto::client::ClientPacket;
use crate::proto::server::MovementState;
use crate::proto::MoveSpeed;

verus! {

/// Derive the movement state bitfield from a client input packet.
///
/// Passing `None` for `latest_input` yields a walking, not peeking state,
/// the safe default for newly connected sessions; the reloading bit is
/// `is_reloading`, and the reserved bits are clear.
pub fn movement_state_from_input(latest_input: Option<&ClientPacket>, is_reloading: bool) -> (r:
    MovementState)
    ensures
        r.spec_speed_bits() == (match latest_input {
            Some(p) => p.flags.spec_move_speed(),
            None => MoveSpeed::Walk,
        }).spec_code(),
        r.spec_peeking() == (match latest_input {
            Some(p) => p.flags.spec_peeking(),
            None => false,
        }),
        r.spec_reloading() == is_reloading,
        r.spec_reserved() == 0,
{
    let mut state = MovementState::empty();
    assert(0u8 >> 4u8 == 0u8) by (bit_vector);
    let speed = match latest_input {
        Some(pkt) => pkt.flags.move_speed(),
        None => MoveSpeed::Walk,
    };
    state.set_move_speed(speed);
    let peeking = match latest_input {
        Some(pkt) => pkt.flags.is_peeking(),
        None => false,
    };
    state.set_peeking(peeking);
    state.set_reloading(is_reloading);
    state
}

} // verus!
