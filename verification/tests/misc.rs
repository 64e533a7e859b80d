use game::input::{KeyState, MouseButton, NamedKey};
use game::player::select_weapon;
use game::camera::CameraBehaviorState;
use game::movement::MovementInput;
use game::proto::MoveSpeed;
use game::spatial::cluster_gap_sectors;
use game::text::{eq_ignore_ascii_case, is_blank_str, is_snake_case_id};
use game::weapon::catalog::{all_weapon_ids, weapon_classes, weapon_ids_for_class, WeaponClass, WeaponId};
use game::{ConnectRequest, InputFlags};

#[test]
fn gap_sectors_group_runs_and_merge_across_the_wrap() {
    let mut cand = [false; 36];
    for i in [0, 1, 5, 6, 7, 20, 34, 35] {
        cand[i] = true;
    }
    let clusters = cluster_gap_sectors(&cand);
    assert_eq!(clusters, vec![vec![34, 35, 0, 1], vec![5, 6, 7], vec![20]]);

    let none = cluster_gap_sectors(&[false; 36]);
    assert!(none.is_empty());

    let all = cluster_gap_sectors(&[true; 36]);
    assert_eq!(all.len(), 1);
    assert_eq!(all[0].len(), 36);
}

#[test]
fn camera_state_prefers_combat_then_gap_tension() {
    assert_eq!(CameraBehaviorState::resolve(CameraBehaviorState::Combat, true), CameraBehaviorState::Combat);
    assert_eq!(CameraBehaviorState::resolve(CameraBehaviorState::Exploration, true), CameraBehaviorState::PeekTension);
    assert_eq!(CameraBehaviorState::resolve(CameraBehaviorState::Exploration, false), CameraBehaviorState::Exploration);
}

#[test]
fn movement_input_axes() {
    let mut i = MovementInput::default();
    assert_eq!(i.axes(), (0, 0));
    assert!(!i.is_moving());
    i.left = true;
    i.right = true;
    i.up = true;
    assert_eq!(i.axes(), (1, -1));
    assert!(i.is_moving());
}

#[test]
fn input_flags_fields_are_independent() {
    let mut f = InputFlags::default();
    f.set_weapon_slot(7);
    f.set_move_speed(MoveSpeed::Run);
    f.set_reloading(true);
    assert_eq!(f.weapon_slot(), 7);
    assert_eq!(f.move_speed(), MoveSpeed::Run);
    assert!(f.is_reloading());
    assert!(!f.is_shooting());
    assert!(!f.is_peeking());
    f.set_weapon_slot(0);
    assert_eq!(f.move_speed(), MoveSpeed::Run);
    assert_eq!(MoveSpeed::from_u8(3), MoveSpeed::Walk);
}

#[test]
fn weapon_roster() {
    assert_eq!(all_weapon_ids().len(), 6);
    assert_eq!(weapon_ids_for_class(WeaponClass::Smg), vec![WeaponId::Mp5, WeaponId::Uzi]);
    assert_eq!(weapon_classes(), vec![WeaponClass::Rifle, WeaponClass::Smg, WeaponClass::Sniper]);
    assert_eq!(WeaponId::from_name("MP5"), Some(WeaponId::Mp5));
    assert_eq!(WeaponId::from_name("mp5"), None);
    assert_eq!(WeaponClass::Smg.label(), "SMG");
}

#[test]
fn text_helpers() {
    assert!(eq_ignore_ascii_case("Red_Dot", "rED_dOT"));
    assert!(!eq_ignore_ascii_case("red", "reds"));
    assert!(is_snake_case_id("red_dot2"));
    assert!(!is_snake_case_id("Red-Dot"));
    assert!(!is_snake_case_id(""));
    assert!(is_blank_str(" \t\u{3000}"));
    assert!(!is_blank_str(" a "));
}

#[test]
fn level_ids_must_be_snake_case() {
    use_level_ids();
}

fn use_level_ids() {
    let ok = game::level::validate_level_ids("level_01", &["crate_01".to_string()]);
    assert_eq!(ok, Ok(()));
    assert_eq!(
        game::level::validate_level_ids("Level01", &["crate_01".to_string()]),
        Err(game::level::LevelIdError::LevelId)
    );
    assert_eq!(
        game::level::validate_level_ids("level_01", &["ok".to_string(), "Bad Id".to_string(), "x".to_string()]),
        Err(game::level::LevelIdError::PropId(1))
    );
}

#[test]
fn keys_drive_controls() {
    let mut k = KeyState::new();
    k.on_character("W", true);
    k.on_character("d", true);
    k.on_character("3", true);
    k.on_character("ww", true);
    k.on_named_key(NamedKey::Shift, true);
    k.on_named_key(NamedKey::Other, true);
    k.on_mouse_button(MouseButton::Left, true);
    assert!(k.up && k.right && k.key_3 && k.shift && k.shoot && k.mouse_left);
    assert!(!k.down && !k.left && !k.walk);
    k.on_character("w", false);
    assert!(!k.up);
    let b = k.buy_keys();
    assert!(!b.buy);
    assert_eq!(b.digits, [false, false, true, false, false]);
}

#[test]
fn long_names_are_cut_to_sixteen_bytes() {
    let r = ConnectRequest::new("abcdefghijklmnopqrstuvwxyz");
    assert_eq!(r.name_str(), "abcdefghijklmnop");
    assert_eq!(ConnectRequest::new("").name_str(), "");
}

#[test]
fn weapon_select_keys_act_on_the_press_and_later_keys_win() {
    let (w, was) = select_weapon(WeaponId::Ak47, [false; 3], [false, true, false]);
    assert_eq!((w, was), (WeaponId::Mp5, [false, true, false]));
    // Held down: nothing new.
    assert_eq!(select_weapon(WeaponId::Ak47, was, was).0, WeaponId::Ak47);
    // Two keys go down together: the sniper key comes later and wins.
    assert_eq!(select_weapon(WeaponId::Ak47, [false; 3], [true, false, true]).0, WeaponId::Sniper);
    // No key: the weapon stays.
    assert_eq!(select_weapon(WeaponId::Mp5, [true; 3], [false; 3]).0, WeaponId::Mp5);
}
