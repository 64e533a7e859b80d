use game::weapon::catalog::{WeaponClass, WeaponId};
use game::weapon::loadout::{class_select_prompt, weapon_select_prompt, BuyKeys, BuyPrompt, BuyStage, WeaponLoadout};

fn keys(buy: bool, digit: Option<usize>) -> BuyKeys {
    let mut digits = [false; 5];
    if let Some(d) = digit {
        digits[d - 1] = true;
    }
    BuyKeys { buy, digits }
}

#[test]
fn buy_menu_picks_a_weapon_of_a_class() {
    let mut l = WeaponLoadout::new();
    assert_eq!(l.active_weapon(), WeaponId::Ak47);
    assert_eq!(l.weapon_name(), "AK-47");
    assert_eq!(l.weapon_class_label(), "Rifle");
    l.update_selection(keys(true, None));
    assert_eq!(l.buy_stage(), BuyStage::ClassSelect);
    l.update_selection(keys(false, None));
    l.update_selection(keys(false, Some(2)));
    assert_eq!(l.buy_stage(), BuyStage::WeaponSelect { class: WeaponClass::Smg, page: 0 });
    l.update_selection(keys(false, None));
    l.update_selection(keys(false, Some(2)));
    assert_eq!(l.buy_stage(), BuyStage::Closed);
    assert_eq!(l.active_weapon(), WeaponId::Uzi);
    assert_eq!(l.active_slot(), 4);
}

#[test]
fn held_keys_act_once() {
    let mut l = WeaponLoadout::new();
    l.update_selection(keys(true, None));
    l.update_selection(keys(true, None));
    assert_eq!(l.buy_stage(), BuyStage::ClassSelect);
    l.update_selection(keys(false, Some(1)));
    l.update_selection(keys(false, Some(1)));
    assert_eq!(l.buy_stage(), BuyStage::WeaponSelect { class: WeaponClass::Rifle, page: 0 });
    // A fresh B closes the menu.
    l.update_selection(keys(true, None));
    assert_eq!(l.buy_stage(), BuyStage::Closed);
}

#[test]
fn page_keys_and_empty_places_do_nothing_on_a_single_page() {
    let mut l = WeaponLoadout::new();
    l.update_selection(keys(true, None));
    l.update_selection(keys(false, Some(3)));
    let stage = BuyStage::WeaponSelect { class: WeaponClass::Sniper, page: 0 };
    assert_eq!(l.buy_stage(), stage);
    for d in [4, 5, 3] {
        l.update_selection(keys(false, None));
        l.update_selection(keys(false, Some(d)));
        assert_eq!(l.buy_stage(), stage);
    }
    assert_eq!(l.active_weapon(), WeaponId::Ak47);
    l.update_selection(keys(false, None));
    l.update_selection(keys(false, Some(2)));
    assert_eq!(l.active_weapon(), WeaponId::Dmr);
}

#[test]
fn prompts() {
    assert_eq!(
        class_select_prompt(),
        BuyPrompt::ClassSelect { classes: vec![WeaponClass::Rifle, WeaponClass::Smg, WeaponClass::Sniper] }
    );
    assert_eq!(
        weapon_select_prompt(WeaponClass::Rifle, 7),
        BuyPrompt::WeaponSelect {
            class: WeaponClass::Rifle,
            page_num: 1,
            page_count: 1,
            choices: vec![Some(WeaponId::Ak47), Some(WeaponId::M4a1), None],
            can_prev: false,
            can_next: false,
        }
    );
    let mut l = WeaponLoadout::new();
    assert_eq!(l.buy_prompt(), None);
    l.update_selection(keys(true, None));
    assert_eq!(l.buy_prompt(), Some(class_select_prompt()));
}

#[test]
fn reload_key_edges() {
    let mut l = WeaponLoadout::new();
    assert!(l.update_reload_input(true));
    assert!(!l.update_reload_input(true));
    assert!(!l.update_reload_input(false));
    assert!(l.update_reload_input(true));
}
