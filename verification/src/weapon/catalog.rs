//! The weapon roster: weapon classes and weapon ids.
//!
//! The floating-point ballistics of each weapon (ranges, spread, recoil,
//! fire rate, reload time) live with the game client; this module holds the
//! roster itself: which weapons exist, in which order, their names, classes,
//! damage and magazine sizes.

use vstd::prelude::*;
use vstd::string::StringSliceAdditionalSpecFns;
use crate::text::bytes_eq;

verus! {

/// Weapon class, used to group the buy menu.
#[derive(Clone, Copy, Debug, PartialEq, Eq, Hash, Structural)]
pub enum WeaponClass {
    Rifle,
    Smg,
    Sniper,
}

impl WeaponClass {
    /// Display label of the class.
    pub fn label(self) -> (r: &'static str)
        ensures
            r@ == (match self {
                WeaponClass::Rifle => "Rifle"@,
                WeaponClass::Smg => "SMG"@,
                WeaponClass::Sniper => "Sniper"@,
            }),
    {
        match self {
            WeaponClass::Rifle => "Rifle",
            WeaponClass::Smg => "SMG",
            WeaponClass::Sniper => "Sniper",
        }
    }
}

/// One weapon of the roster.
#[derive(Clone, Copy, Debug, PartialEq, Eq, Hash, Structural)]
pub enum WeaponId {
    Ak47,
    Mp5,
    Sniper,
    M4a1,
    Uzi,
    Dmr,
}

/// The roster, in catalogue order.
pub open spec fn roster() -> Seq<WeaponId> {
    seq![
        WeaponId::Ak47,
        WeaponId::Mp5,
        WeaponId::Sniper,
        WeaponId::M4a1,
        WeaponId::Uzi,
        WeaponId::Dmr,
    ]
}

/// The weapons of `ids` that belong to `class`, in order.
pub open spec fn of_class(ids: Seq<WeaponId>, class: WeaponClass) -> Seq<WeaponId>
    decreases ids.len(),
{
    if ids.len() == 0 {
        Seq::empty()
    } else if ids.last().spec_class() == class {
        of_class(ids.drop_last(), class).push(ids.last())
    } else {
        of_class(ids.drop_last(), class)
    }
}

impl WeaponId {
    /// The class of this weapon.
    pub open spec fn spec_class(self) -> WeaponClass {
        match self {
            WeaponId::Ak47 => WeaponClass::Rifle,
            WeaponId::M4a1 => WeaponClass::Rifle,
            WeaponId::Mp5 => WeaponClass::Smg,
            WeaponId::Uzi => WeaponClass::Smg,
            WeaponId::Sniper => WeaponClass::Sniper,
            WeaponId::Dmr => WeaponClass::Sniper,
        }
    }

    /// The display name of this weapon.
    pub open spec fn spec_name(self) -> Seq<char> {
        match self {
            WeaponId::Ak47 => "AK-47"@,
            WeaponId::Mp5 => "MP5"@,
            WeaponId::Sniper => "Sniper"@,
            WeaponId::M4a1 => "M4A1"@,
            WeaponId::Uzi => "Uzi"@,
            WeaponId::Dmr => "DMR"@,
        }
    }

    pub fn class(self) -> (r: WeaponClass)
        ensures
            r == self.spec_class(),
    {
        match self {
            WeaponId::Ak47 => WeaponClass::Rifle,
            WeaponId::M4a1 => WeaponClass::Rifle,
            WeaponId::Mp5 => WeaponClass::Smg,
            WeaponId::Uzi => WeaponClass::Smg,
            WeaponId::Sniper => WeaponClass::Sniper,
            WeaponId::Dmr => WeaponClass::Sniper,
        }
    }

    pub fn name(self) -> (r: &'static str)
        ensures
            r@ == self.spec_name(),
    {
        match self {
            WeaponId::Ak47 => "AK-47",
            WeaponId::Mp5 => "MP5",
            WeaponId::Sniper => "Sniper",
            WeaponId::M4a1 => "M4A1",
            WeaponId::Uzi => "Uzi",
            WeaponId::Dmr => "DMR",
        }
    }

    /// Damage of one bullet.
    pub fn bullet_damage(self) -> (r: u32)
        ensures
            r == (match self {
                WeaponId::Sniper => 3u32,
                WeaponId::Dmr => 2u32,
                _ => 1u32,
            }),
    {
        match self {
            WeaponId::Sniper => 3,
            WeaponId::Dmr => 2,
            _ => 1,
        }
    }

    /// Rounds in a full magazine.
    pub fn mag_size(self) -> (r: u32)
        ensures
            r == (match self {
                WeaponId::Ak47 => 30u32,
                WeaponId::M4a1 => 30u32,
                WeaponId::Mp5 => 30u32,
                WeaponId::Uzi => 32u32,
                WeaponId::Sniper => 5u32,
                WeaponId::Dmr => 12u32,
            }),
    {
        match self {
            WeaponId::Ak47 => 30,
            WeaponId::M4a1 => 30,
            WeaponId::Mp5 => 30,
            WeaponId::Uzi => 32,
            WeaponId::Sniper => 5,
            WeaponId::Dmr => 12,
        }
    }

    /// The weapon whose display name is exactly `name`.
    pub fn from_name(name: &str) -> (r: Option<WeaponId>)
        ensures
            match r {
                Some(w) => roster().contains(w) && w.spec_name() == name@,
                None => forall|i: int| 0 <= i < 6 ==> (#[trigger] roster()[i]).spec_name() != name@,
            },
    {
        let ids = all_weapon_ids();
        let mut i: usize = 0;
        while i < ids.len()
            invariant
                ids@ == roster(),
                i <= 6,
                forall|k: int| 0 <= k < i ==> (#[trigger] roster()[k]).spec_name() != name@,
            decreases 6 - i,
        {
            let w = ids[i];
            if str_eq(w.name(), name) {
                assert(roster()[i as int] == w);
                return Some(w);
            }
            i = i + 1;
        }
        None
    }
}

/// Equality of two strings, by their bytes.
fn str_eq(a: &str, b: &str) -> (r: bool)
    ensures
        r == (a@ == b@),
{
    proof {
        vstd::utf8::encode_utf8_decode_utf8(a@);
        vstd::utf8::encode_utf8_decode_utf8(b@);
    }
    bytes_eq(a.as_bytes(), b.as_bytes())
}

/// Every weapon of the roster, in catalogue order.
pub fn all_weapon_ids() -> (r: Vec<WeaponId>)
    ensures
        r@ == roster(),
{
    let r = vec![
        WeaponId::Ak47,
        WeaponId::Mp5,
        WeaponId::Sniper,
        WeaponId::M4a1,
        WeaponId::Uzi,
        WeaponId::Dmr,
    ];
    assert(r@ =~= roster());
    r
}

/// The weapons of `class`, in catalogue order.
pub fn weapon_ids_for_class(class: WeaponClass) -> (r: Vec<WeaponId>)
    ensures
        r@ == of_class(roster(), class),
{
    let ids = all_weapon_ids();
    let mut out: Vec<WeaponId> = Vec::new();
    let mut i: usize = 0;
    while i < ids.len()
        invariant
            ids@ == roster(),
            i <= 6,
            out@ == of_class(roster().take(i as int), class),
        decreases 6 - i,
    {
        proof {
            assert(roster().take(i + 1).drop_last() =~= roster().take(i as int));
        }
        if ids[i].class() == class {
            out.push(ids[i]);
        }
        i = i + 1;
    }
    assert(roster().take(6) =~= roster());
    out
}

/// The classes that have weapons, in the order they first appear in the roster.
pub fn weapon_classes() -> (r: Vec<WeaponClass>)
    ensures
        r@ == seq![WeaponClass::Rifle, WeaponClass::Smg, WeaponClass::Sniper],
{
    let ids = all_weapon_ids();
    let mut out: Vec<WeaponClass> = Vec::new();
    let mut i: usize = 0;
    while i < ids.len()
        invariant
            ids@ == roster(),
            i <= 6,
            i <= 3 ==> out@ == seq![WeaponClass::Rifle, WeaponClass::Smg, WeaponClass::Sniper].take(
                i as int,
            ),
            i > 3 ==> out@ == seq![WeaponClass::Rifle, WeaponClass::Smg, WeaponClass::Sniper],
        decreases 6 - i,
    {
        let c = ids[i].class();
        let mut seen = false;
        let mut k: usize = 0;
        while k < out.len()
            invariant
                k <= out@.len(),
                seen == exists|j: int| 0 <= j < k && out@[j] == c,
            decreases out@.len() - k,
        {
            if out[k] == c {
                seen = true;
            }
            k = k + 1;
        }
        proof {
            if i >= 3 {
                assert(c == roster()[i as int].spec_class());
                if c == WeaponClass::Rifle {
                    assert(out@[0] == c);
                } else if c == WeaponClass::Smg {
                    assert(out@[1] == c);
                } else {
                    assert(out@[2] == c);
                }
            }
        }
        if !seen {
            out.push(c);
        }
        i = i + 1;
        proof {
            if i <= 3 {
                assert(out@ =~= seq![WeaponClass::Rifle, WeaponClass::Smg, WeaponClass::Sniper].take(
                    i as int,
                ));
            } else {
                assert(out@ =~= seq![WeaponClass::Rifle, WeaponClass::Smg, WeaponClass::Sniper]);
            }
        }
    }
    out
}

} // verus!
