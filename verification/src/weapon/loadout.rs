//! The player's weapon slots and the buy menu that picks the active one.
//!
//! One slot holds each weapon of the roster, in roster order. The menu is
//! driven by key edges: `B` opens or closes it, the digit keys `1`..`5`
//! choose a class, then a weapon of that class (`1`..`3`), or turn the page
//! (`4` back, `5` forward). Ammunition and timers of each slot are kept by the
//! game beside this selection, slot by slot.

use vstd::prelude::*;
use super::catalog::{
    all_weapon_ids, of_class, roster, weapon_classes, weapon_ids_for_class, WeaponClass, WeaponId,
};

verus! {

/// Weapons listed per page of the buy menu.
pub const WEAPON_PAGE_SIZE: usize = 3;

/// Where the buy menu stands.
#[derive(Clone, Copy, Debug, PartialEq, Eq, Structural)]
pub enum BuyStage {
    Closed,
    ClassSelect,
    WeaponSelect { class: WeaponClass, page: usize },
}

/// The keys that drive the buy menu this frame: `B` and the digits `1`..`5`.
#[derive(Clone, Copy, Debug)]
pub struct BuyKeys {
    pub buy: bool,
    pub digits: [bool; 5],
}

/// What the buy menu shows.
#[derive(Clone, Debug, PartialEq, Eq)]
pub enum BuyPrompt {
    /// Choose a class: the classes offered under the keys `1`, `2`, ..
    ClassSelect { classes: Vec<WeaponClass> },
    /// The class has no weapons.
    NoWeapons { class: WeaponClass },
    /// Page `page_num` of `page_count` of the class's weapons: the weapons
    /// under the keys `1`..`3` (none past the end), and whether `4` and `5`
    /// turn the page.
    WeaponSelect {
        class: WeaponClass,
        page_num: usize,
        page_count: usize,
        choices: Vec<Option<WeaponId>>,
        can_prev: bool,
        can_next: bool,
    },
}

/// The mathematical content of a [`BuyPrompt`].
pub enum BuyPromptView {
    ClassSelect { classes: Seq<WeaponClass> },
    NoWeapons { class: WeaponClass },
    WeaponSelect {
        class: WeaponClass,
        page_num: usize,
        page_count: usize,
        choices: Seq<Option<WeaponId>>,
        can_prev: bool,
        can_next: bool,
    },
}

impl View for BuyPrompt {
    type V = BuyPromptView;

    open spec fn view(&self) -> BuyPromptView {
        match self {
            BuyPrompt::ClassSelect { classes } => BuyPromptView::ClassSelect { classes: classes@ },
            BuyPrompt::NoWeapons { class } => BuyPromptView::NoWeapons { class: *class },
            BuyPrompt::WeaponSelect { class, page_num, page_count, choices, can_prev, can_next } =>
                BuyPromptView::WeaponSelect {
                class: *class,
                page_num: *page_num,
                page_count: *page_count,
                choices: choices@,
                can_prev: *can_prev,
                can_next: *can_next,
            },
        }
    }
}

/// The weapon slots, the active slot and the buy menu.
pub struct WeaponLoadout {
    slots: Vec<WeaponId>,
    active_slot: usize,
    was_reload_pressed: bool,
    was_buy_pressed: bool,
    was_digit_pressed: [bool; 5],
    buy_stage: BuyStage,
}

/// The mathematical content of a [`WeaponLoadout`].
pub struct LoadoutView {
    pub slots: Seq<WeaponId>,
    pub active_slot: int,
    pub was_reload_pressed: bool,
    pub was_buy_pressed: bool,
    pub was_digit_pressed: Seq<bool>,
    pub buy_stage: BuyStage,
}

impl View for WeaponLoadout {
    type V = LoadoutView;

    closed spec fn view(&self) -> LoadoutView {
        LoadoutView {
            slots: self.slots@,
            active_slot: self.active_slot as int,
            was_reload_pressed: self.was_reload_pressed,
            was_buy_pressed: self.was_buy_pressed,
            was_digit_pressed: self.was_digit_pressed@,
            buy_stage: self.buy_stage,
        }
    }
}

/// The weapons of `class`, in roster order.
pub open spec fn class_weapons(class: WeaponClass) -> Seq<WeaponId> {
    of_class(roster(), class)
}

/// The classes of the menu, in order.
pub open spec fn menu_classes() -> Seq<WeaponClass> {
    seq![WeaponClass::Rifle, WeaponClass::Smg, WeaponClass::Sniper]
}

/// The slot that holds weapon `id`: its place in the roster.
pub open spec fn slot_of(id: WeaponId) -> int {
    match id {
        WeaponId::Ak47 => 0,
        WeaponId::Mp5 => 1,
        WeaponId::Sniper => 2,
        WeaponId::M4a1 => 3,
        WeaponId::Uzi => 4,
        WeaponId::Dmr => 5,
    }
}

/// The invariant: one slot per roster weapon, in roster order, an active
/// slot among them, and a menu page that lies within its class.
pub open spec fn loadout_wf(v: LoadoutView) -> bool {
    &&& v.slots == roster()
    &&& 0 <= v.active_slot < v.slots.len()
    &&& v.was_digit_pressed.len() == 5
    &&& v.buy_stage matches BuyStage::WeaponSelect { class, page } ==> (page == 0 || page
        * WEAPON_PAGE_SIZE < class_weapons(class).len())
}

/// The digit (`1`..`5`) of the first key among `digits[i..]` that is down
/// now and was up before, if any.
pub open spec fn first_new_press(digits: Seq<bool>, was: Seq<bool>, i: int) -> Option<int>
    decreases 5 - i,
{
    if i < 0 || i >= 5 {
        None
    } else if digits[i] && !was[i] {
        Some(i + 1)
    } else {
        first_new_press(digits, was, i + 1)
    }
}

/// The menu after the `B` key: a fresh press opens a closed menu at the
/// class choice and closes an open one.
pub open spec fn toggled_stage(stage: BuyStage, buy: bool, was_buy: bool) -> BuyStage {
    if buy && !was_buy {
        match stage {
            BuyStage::Closed => BuyStage::ClassSelect,
            _ => BuyStage::Closed,
        }
    } else {
        stage
    }
}

/// The menu and the active slot after choosing digit `choice`.
///
/// At the class choice a digit naming a class opens that class's first
/// page. On a page of weapons, `1`..`3` pick the weapon listed under it
/// (when there is one), make its slot active and close the menu; `4` turns
/// back a page unless on the first, `5` forward unless on the last. A closed
/// menu ignores digits.
pub open spec fn chosen(stage: BuyStage, choice: int, active: int) -> (BuyStage, int) {
    match stage {
        BuyStage::Closed => (stage, active),
        BuyStage::ClassSelect => if 1 <= choice <= menu_classes().len() {
            (BuyStage::WeaponSelect { class: menu_classes()[choice - 1], page: 0 }, active)
        } else {
            (stage, active)
        },
        BuyStage::WeaponSelect { class, page } => {
            let cw = class_weapons(class);
            let start = page * WEAPON_PAGE_SIZE;
            if 1 <= choice <= 3 {
                if start + choice - 1 < cw.len() {
                    (BuyStage::Closed, slot_of(cw[start + choice - 1]))
                } else {
                    (stage, active)
                }
            } else if choice == 4 {
                if page > 0 {
                    (BuyStage::WeaponSelect { class, page: (page - 1) as usize }, active)
                } else {
                    (stage, active)
                }
            } else if choice == 5 {
                if start + WEAPON_PAGE_SIZE < cw.len() {
                    (BuyStage::WeaponSelect { class, page: (page + 1) as usize }, active)
                } else {
                    (stage, active)
                }
            } else {
                (stage, active)
            }
        },
    }
}

/// The loadout after a frame of buy-menu keys.
pub open spec fn after_selection(v: LoadoutView, keys: BuyKeys) -> LoadoutView {
    let stage = toggled_stage(v.buy_stage, keys.buy, v.was_buy_pressed);
    let (stage2, active2) = match first_new_press(keys.digits@, v.was_digit_pressed, 0) {
        Some(choice) => chosen(stage, choice, v.active_slot),
        None => (stage, v.active_slot),
    };
    LoadoutView {
        slots: v.slots,
        active_slot: active2,
        was_reload_pressed: v.was_reload_pressed,
        was_buy_pressed: keys.buy,
        was_digit_pressed: keys.digits@,
        buy_stage: stage2,
    }
}

proof fn lemma_class_weapons_len(class: WeaponClass)
    ensures
        class_weapons(class).len() == 2,
        forall|i: int| 0 <= i < 2 ==> 0 <= slot_of(#[trigger] class_weapons(class)[i]) < 6,
{
    reveal_with_fuel(of_class, 7);
    assert(roster().drop_last() =~= seq![
        WeaponId::Ak47,
        WeaponId::Mp5,
        WeaponId::Sniper,
        WeaponId::M4a1,
        WeaponId::Uzi,
    ]);
    assert(roster().drop_last().drop_last() =~= seq![
        WeaponId::Ak47,
        WeaponId::Mp5,
        WeaponId::Sniper,
        WeaponId::M4a1,
    ]);
    assert(roster().drop_last().drop_last().drop_last() =~= seq![
        WeaponId::Ak47,
        WeaponId::Mp5,
        WeaponId::Sniper,
    ]);
    assert(roster().drop_last().drop_last().drop_last().drop_last() =~= seq![
        WeaponId::Ak47,
        WeaponId::Mp5,
    ]);
    assert(roster().drop_last().drop_last().drop_last().drop_last().drop_last() =~= seq![
        WeaponId::Ak47,
    ]);
    assert(roster().drop_last().drop_last().drop_last().drop_last().drop_last().drop_last()
        =~= Seq::<WeaponId>::empty());
}

/// The weapon listed at place `i` of `cw`, if any.
pub open spec fn listed(cw: Seq<WeaponId>, i: int) -> Option<WeaponId> {
    if 0 <= i < cw.len() {
        Some(cw[i])
    } else {
        None
    }
}

/// Pages needed to list `n` weapons.
pub open spec fn page_count_of(n: int) -> int {
    (n + WEAPON_PAGE_SIZE - 1) / (WEAPON_PAGE_SIZE as int)
}

/// The page shown for a request of page `page`: the last one when `page`
/// lies past it.
pub open spec fn shown_page(n: int, page: int) -> int {
    if page < page_count_of(n) - 1 {
        page
    } else {
        page_count_of(n) - 1
    }
}

/// The buy menu's page `page` of class `class`.
pub open spec fn weapon_page(class: WeaponClass, page: int) -> BuyPromptView {
    let cw = class_weapons(class);
    if cw.len() == 0 {
        BuyPromptView::NoWeapons { class }
    } else {
        let p = shown_page(cw.len() as int, page);
        let start = p * WEAPON_PAGE_SIZE;
        BuyPromptView::WeaponSelect {
            class,
            page_num: (p + 1) as usize,
            page_count: page_count_of(cw.len() as int) as usize,
            choices: seq![listed(cw, start), listed(cw, start + 1), listed(cw, start + 2)],
            can_prev: p > 0,
            can_next: start + WEAPON_PAGE_SIZE < cw.len(),
        }
    }
}

/// The class choice of the buy menu: the menu's classes under the keys
/// `1`, `2`, ...
pub fn class_select_prompt() -> (r: BuyPrompt)
    ensures
        r@ == (BuyPromptView::ClassSelect { classes: menu_classes() }),
{
    let classes = weapon_classes();
    let mut shown: Vec<WeaponClass> = Vec::new();
    let mut i: usize = 0;
    while i < classes.len() && i < 5
        invariant
            classes@ == menu_classes(),
            0 <= i <= 3,
            shown@ == menu_classes().take(i as int),
        decreases 3 - i,
    {
        shown.push(classes[i]);
        i = i + 1;
        proof {
            assert(shown@ =~= menu_classes().take(i as int));
        }
    }
    assert(shown@ =~= menu_classes());
    BuyPrompt::ClassSelect { classes: shown }
}

/// A page of weapons of the buy menu: the page asked for, or the last one
/// when it lies past the end, with up to three weapons and the page keys
/// that apply.
pub fn weapon_select_prompt(class: WeaponClass, page: usize) -> (r: BuyPrompt)
    ensures
        r@ == weapon_page(class, page as int),
{
    proof {
        lemma_class_weapons_len(class);
    }
    let cw = weapon_ids_for_class(class);
    if cw.len() == 0 {
        return BuyPrompt::NoWeapons { class };
    }
    let n = cw.len();
    let page_count = (n + WEAPON_PAGE_SIZE - 1) / WEAPON_PAGE_SIZE;
    let clamped = if page < page_count - 1 {
        page
    } else {
        page_count - 1
    };
    let page_start = clamped * WEAPON_PAGE_SIZE;
    assert(page_start == 0);
    let mut choices: Vec<Option<WeaponId>> = Vec::new();
    let mut k: usize = 0;
    while k < WEAPON_PAGE_SIZE
        invariant
            cw@ == class_weapons(class),
            n == cw@.len(),
            page_start == 0,
            0 <= k <= 3,
            choices@ == seq![
                listed(cw@, page_start as int),
                listed(cw@, page_start + 1),
                listed(cw@, page_start + 2),
            ].take(k as int),
        decreases 3 - k,
    {
        let i = page_start + k;
        let item = if i < n {
            Some(cw[i])
        } else {
            None
        };
        choices.push(item);
        k = k + 1;
        proof {
            assert(choices@ =~= seq![
                listed(cw@, page_start as int),
                listed(cw@, page_start + 1),
                listed(cw@, page_start + 2),
            ].take(k as int));
        }
    }
    assert(seq![
        listed(cw@, page_start as int),
        listed(cw@, page_start + 1),
        listed(cw@, page_start + 2),
    ].take(3) =~= seq![
        listed(cw@, page_start as int),
        listed(cw@, page_start + 1),
        listed(cw@, page_start + 2),
    ]);
    BuyPrompt::WeaponSelect {
        class,
        page_num: clamped + 1,
        page_count,
        choices,
        can_prev: clamped > 0,
        can_next: page_start + WEAPON_PAGE_SIZE < n,
    }
}

/// Keys held down act once: a second frame with the same keys changes
/// nothing.
pub proof fn law_held_keys_act_once(v: LoadoutView, keys: BuyKeys)
    requires
        loadout_wf(v),
        keys.digits@.len() == 5,
    ensures
        after_selection(after_selection(v, keys), keys) == after_selection(v, keys),
{
    reveal_with_fuel(first_new_press, 6);
    let w = after_selection(v, keys);
    assert(first_new_press(keys.digits@, w.was_digit_pressed, 0) is None);
}

/// Law: the slot of a weapon holds that weapon: `slot_of` is the weapon's
/// place in the roster.
pub proof fn law_slot_holds_its_weapon(id: WeaponId)
    ensures
        0 <= slot_of(id) < roster().len(),
        roster()[slot_of(id)] == id,
{
}

/// A frame that picks a weapon: the menu (after the `B` edge) shows a page
/// of weapons and the first new digit, `1` to `3`, names one listed on it.
pub open spec fn chose_weapon(v: LoadoutView, keys: BuyKeys) -> bool {
    &&& toggled_stage(v.buy_stage, keys.buy, v.was_buy_pressed) is WeaponSelect
    &&& first_new_press(keys.digits@, v.was_digit_pressed, 0) is Some
    &&& {
        let stage = toggled_stage(v.buy_stage, keys.buy, v.was_buy_pressed);
        let choice = first_new_press(keys.digits@, v.was_digit_pressed, 0)->0;
        1 <= choice <= 3 && stage->page * WEAPON_PAGE_SIZE + choice - 1 < class_weapons(
            stage->class,
        ).len()
    }
}

/// The weapon that such a frame picks: the one listed under the digit.
pub open spec fn chosen_weapon(v: LoadoutView, keys: BuyKeys) -> WeaponId {
    let stage = toggled_stage(v.buy_stage, keys.buy, v.was_buy_pressed);
    let choice = first_new_press(keys.digits@, v.was_digit_pressed, 0)->0;
    class_weapons(stage->class)[stage->page * WEAPON_PAGE_SIZE + choice - 1]
}

/// Law: choosing a weapon listed on the open page closes the menu and makes
/// active the slot that holds that very weapon.
pub proof fn law_chosen_weapon_is_active(v: LoadoutView, keys: BuyKeys, class: WeaponClass, page: usize, choice: int)
    requires
        loadout_wf(v),
        toggled_stage(v.buy_stage, keys.buy, v.was_buy_pressed) == (BuyStage::WeaponSelect {
            class,
            page,
        }),
        first_new_press(keys.digits@, v.was_digit_pressed, 0) == Some(choice),
        1 <= choice <= 3,
        page * WEAPON_PAGE_SIZE + choice - 1 < class_weapons(class).len(),
    ensures
        ({
            let w = after_selection(v, keys);
            &&& w.buy_stage == BuyStage::Closed
            &&& 0 <= w.active_slot < w.slots.len()
            &&& w.slots[w.active_slot] == class_weapons(class)[page * WEAPON_PAGE_SIZE + choice - 1]
        }),
{
    law_slot_holds_its_weapon(class_weapons(class)[page * WEAPON_PAGE_SIZE + choice - 1]);
}

/// The first slot that holds `weapon`.
fn position_of(slots: &Vec<WeaponId>, weapon: WeaponId) -> (r: Option<usize>)
    ensures
        r matches Some(k) ==> k < slots@.len() && slots@[k as int] == weapon && forall|j: int|
            0 <= j < k ==> slots@[j] != weapon,
        r is None ==> forall|j: int| 0 <= j < slots@.len() ==> slots@[j] != weapon,
{
    let mut k: usize = 0;
    while k < slots.len()
        invariant
            0 <= k <= slots@.len(),
            forall|j: int| 0 <= j < k ==> slots@[j] != weapon,
        decreases slots@.len() - k,
    {
        if slots[k] == weapon {
            return Some(k);
        }
        k = k + 1;
    }
    None
}

impl WeaponLoadout {
    pub closed spec fn wf(&self) -> bool {
        loadout_wf(self@)
    }

    /// One slot per roster weapon, the first one active, the menu closed and
    /// no key held.
    pub fn new() -> (r: WeaponLoadout)
        ensures
            r.wf(),
            r@.active_slot == 0,
            r@.buy_stage == BuyStage::Closed,
            !r@.was_reload_pressed,
            !r@.was_buy_pressed,
            r@.was_digit_pressed == seq![false, false, false, false, false],
    {
        let r = WeaponLoadout {
            slots: all_weapon_ids(),
            active_slot: 0,
            was_reload_pressed: false,
            was_buy_pressed: false,
            was_digit_pressed: [false; 5],
            buy_stage: BuyStage::Closed,
        };
        assert(r.was_digit_pressed@ =~= seq![false, false, false, false, false]);
        r
    }

    /// The index of the active slot.
    pub fn active_slot(&self) -> (r: usize)
        ensures
            r == self@.active_slot,
    {
        self.active_slot
    }

    /// The weapon of the active slot.
    pub fn active_weapon(&self) -> (r: WeaponId)
        requires
            self.wf(),
        ensures
            r == self@.slots[self@.active_slot],
    {
        self.slots[self.active_slot]
    }

    /// The weapon of each slot, in slot order.
    pub fn slots(&self) -> (r: &[WeaponId])
        ensures
            r@ == self@.slots,
    {
        self.slots.as_slice()
    }

    /// Where the buy menu stands.
    pub fn buy_stage(&self) -> (r: BuyStage)
        ensures
            r == self@.buy_stage,
    {
        self.buy_stage
    }

    /// Display name of the active weapon.
    pub fn weapon_name(&self) -> (r: &'static str)
        requires
            self.wf(),
        ensures
            r@ == self@.slots[self@.active_slot].spec_name(),
    {
        self.active_weapon().name()
    }

    /// Class label of the active weapon.
    pub fn weapon_class_label(&self) -> (r: &'static str)
        requires
            self.wf(),
        ensures
            r@ == (match self@.slots[self@.active_slot].spec_class() {
                WeaponClass::Rifle => "Rifle"@,
                WeaponClass::Smg => "SMG"@,
                WeaponClass::Sniper => "Sniper"@,
            }),
    {
        self.active_weapon().class().label()
    }

    /// Apply a frame of buy-menu keys: the `B` edge first, then the first
    /// digit pressed this frame.
    pub fn update_selection(&mut self, keys: BuyKeys)
        requires
            old(self).wf(),
        ensures
            final(self).wf(),
            final(self)@ == after_selection(old(self)@, keys),
            chose_weapon(old(self)@, keys) ==> final(self)@.buy_stage == BuyStage::Closed
                && final(self)@.slots[final(self)@.active_slot] == chosen_weapon(old(self)@, keys),
    {
        proof {
            if chose_weapon(self@, keys) {
                let stage = toggled_stage(self@.buy_stage, keys.buy, self@.was_buy_pressed);
                let choice = first_new_press(keys.digits@, self@.was_digit_pressed, 0)->0;
                law_chosen_weapon_is_active(
                    self@,
                    keys,
                    stage->class,
                    stage->page,
                    choice,
                );
            }
        }
        let ghost v = self@;
        let buy_pressed = keys.buy;
        if buy_pressed && !self.was_buy_pressed {
            self.buy_stage = match self.buy_stage {
                BuyStage::Closed => BuyStage::ClassSelect,
                _ => BuyStage::Closed,
            };
        }
        self.was_buy_pressed = buy_pressed;
        let mut just_pressed: Option<usize> = None;
        let mut idx: usize = 0;
        while idx < 5
            invariant
                0 <= idx <= 5,
                keys.digits@.len() == 5,
                self.was_digit_pressed@ == v.was_digit_pressed,
                v.was_digit_pressed.len() == 5,
                just_pressed is None ==> first_new_press(keys.digits@, v.was_digit_pressed, 0)
                    == first_new_press(keys.digits@, v.was_digit_pressed, idx as int),
                just_pressed matches Some(c) ==> first_new_press(
                    keys.digits@,
                    v.was_digit_pressed,
                    0,
                ) == Some(c as int) && 1 <= c <= 5,
            decreases 5 - idx,
        {
            if just_pressed.is_none() && keys.digits[idx] && !self.was_digit_pressed[idx] {
                just_pressed = Some(idx + 1);
            }
            idx = idx + 1;
        }
        self.was_digit_pressed = keys.digits;
        assert(first_new_press(keys.digits@, v.was_digit_pressed, 5) is None);
        assert(self@.buy_stage == toggled_stage(v.buy_stage, keys.buy, v.was_buy_pressed));
        let choice = match just_pressed {
            Some(c) => c,
            None => {
                return;
            },
        };
        proof {
            lemma_class_weapons_len(WeaponClass::Rifle);
            lemma_class_weapons_len(WeaponClass::Smg);
            lemma_class_weapons_len(WeaponClass::Sniper);
        }
        match self.buy_stage {
            BuyStage::Closed => {},
            BuyStage::ClassSelect => {
                let classes = weapon_classes();
                if choice >= 1 && choice - 1 < classes.len() {
                    self.buy_stage = BuyStage::WeaponSelect { class: classes[choice - 1], page: 0 };
                }
            },
            BuyStage::WeaponSelect { class, page } => {
                let class_ids = weapon_ids_for_class(class);
                let page_start = page * WEAPON_PAGE_SIZE;
                if choice >= 1 && choice <= 3 {
                    let weapon_index = page_start + (choice - 1);
                    if weapon_index < class_ids.len() {
                        let weapon = class_ids[weapon_index];
                        match position_of(&self.slots, weapon) {
                            Some(k) => {
                                self.active_slot = k;
                            },
                            None => {},
                        }
                        self.buy_stage = BuyStage::Closed;
                    }
                } else if choice == 4 {
                    if page > 0 {
                        self.buy_stage = BuyStage::WeaponSelect { class, page: page - 1 };
                    }
                } else if choice == 5 {
                    if page_start + WEAPON_PAGE_SIZE < class_ids.len() {
                        self.buy_stage = BuyStage::WeaponSelect { class, page: page + 1 };
                    }
                }
            },
        }
    }

    /// What the buy menu shows: nothing when it is closed.
    pub fn buy_prompt(&self) -> (r: Option<BuyPrompt>)
        ensures
            self@.buy_stage == BuyStage::Closed <==> r is None,
            self@.buy_stage == BuyStage::ClassSelect ==> (r matches Some(p) && p@ == (
            BuyPromptView::ClassSelect { classes: menu_classes() })),
            self@.buy_stage matches BuyStage::WeaponSelect { class, page } ==> (r matches Some(p)
                && p@ == weapon_page(class, page as int)),
    {
        match self.buy_stage {
            BuyStage::Closed => None,
            BuyStage::ClassSelect => Some(class_select_prompt()),
            BuyStage::WeaponSelect { class, page } => Some(weapon_select_prompt(class, page)),
        }
    }

    /// Note the state of the reload key; returns whether it was pressed
    /// this frame (down now, up before), when a reload should start.
    pub fn update_reload_input(&mut self, reload_pressed: bool) -> (just_pressed: bool)
        requires
            old(self).wf(),
        ensures
            final(self).wf(),
            just_pressed == (reload_pressed && !old(self)@.was_reload_pressed),
            final(self)@ == (LoadoutView { was_reload_pressed: reload_pressed, ..old(self)@ }),
    {
        let just_pressed = reload_pressed && !self.was_reload_pressed;
        self.was_reload_pressed = reload_pressed;
        just_pressed
    }
}

} // verus!
