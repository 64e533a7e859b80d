//! The player's discrete per-frame decisions: which weapon the number keys
//! select.

use vstd::prelude::*;
use crate::weapon::catalog::WeaponId;

verus! {

/// The weapon after one frame of the select keys (`5`, `6`, `7` for the
/// AK-47, MP5 and sniper): a key acts on the frame it goes down, and when
/// several go down together the later key wins.
pub open spec fn selected_weapon(active: WeaponId, was: [bool; 3], keys: [bool; 3]) -> WeaponId {
    if keys[2] && !was[2] {
        WeaponId::Sniper
    } else if keys[1] && !was[1] {
        WeaponId::Mp5
    } else if keys[0] && !was[0] {
        WeaponId::Ak47
    } else {
        active
    }
}

/// Applies one frame of the weapon select keys: returns the active weapon
/// and the keys as held this frame, which become the next frame's `was`.
pub fn select_weapon(active: WeaponId, was: [bool; 3], keys: [bool; 3]) -> (r: (WeaponId, [bool; 3]))
    ensures
        r.0 == selected_weapon(active, was, keys),
        r.1 == keys,
{
    let mut w = active;
    if keys[0] && !was[0] {
        w = WeaponId::Ak47;
    }
    if keys[1] && !was[1] {
        w = WeaponId::Mp5;
    }
    if keys[2] && !was[2] {
        w = WeaponId::Sniper;
    }
    (w, keys)
}

/// Keys held across frames select once: a second frame with the same keys
/// keeps the weapon the first one chose.
pub proof fn law_held_select_keys_act_once(active: WeaponId, was: [bool; 3], keys: [bool; 3])
    ensures
        selected_weapon(selected_weapon(active, was, keys), keys, keys) == selected_weapon(
            active,
            was,
            keys,
        ),
{
}

} // verus!
