//! Which key and mouse button drive which control of the game.
//!
//! The window toolkit's events are turned into these plain values at the
//! edge; the mouse position stays there too.

use vstd::prelude::*;
use vstd::string::StringSliceAdditionalSpecFns;
use crate::weapon::loadout::BuyKeys;

verus! {

/// The named keys the game listens to.
#[derive(Debug, Clone, Copy, PartialEq, Eq, Structural)]
pub enum NamedKey {
    ArrowUp,
    ArrowDown,
    ArrowLeft,
    ArrowRight,
    Space,
    Shift,
    Escape,
    Enter,
    F1,
    F5,
    F8,
    /// Any other named key.
    Other,
}

/// The mouse buttons the game tells apart.
#[derive(Debug, Clone, Copy, PartialEq, Eq, Structural)]
pub enum MouseButton {
    Left,
    Right,
    Other,
}

/// Which controls are held down.
#[derive(Debug, Clone, Copy, PartialEq, Eq, Structural, Default)]
pub struct KeyState {
    pub up: bool,
    pub down: bool,
    pub left: bool,
    pub right: bool,
    /// Left mouse button.
    pub shoot: bool,
    /// Space: slow, sneaking movement.
    pub walk: bool,
    /// Shift: run.
    pub shift: bool,
    /// Hold X: peek.
    pub peek: bool,
    pub reload: bool,
    pub escape: bool,
    pub enter: bool,
    /// Open or cancel the buy menu.
    pub key_b: bool,
    /// Toggle the editor.
    pub f1: bool,
    /// Save the level.
    pub f5: bool,
    /// Toggle the debug overlay.
    pub f8: bool,
    pub key_1: bool,
    pub key_2: bool,
    pub key_3: bool,
    pub key_4: bool,
    pub key_5: bool,
    /// Toggle grid snap.
    pub key_g: bool,
    /// Load a level.
    pub key_l: bool,
    pub mouse_left: bool,
    pub mouse_right: bool,
}

/// The key's text is the one ASCII letter or digit `c`, or, when `alt` is
/// another one, that one.
pub open spec fn is_char_key(text: Seq<u8>, c: u8, alt: u8) -> bool {
    text.len() == 1 && (text[0] == c || text[0] == alt)
}

/// The controls after a named key goes down (`pressed`) or up.
pub open spec fn after_named(s: KeyState, key: NamedKey, pressed: bool) -> KeyState {
    match key {
        NamedKey::ArrowUp => KeyState { up: pressed, ..s },
        NamedKey::ArrowDown => KeyState { down: pressed, ..s },
        NamedKey::ArrowLeft => KeyState { left: pressed, ..s },
        NamedKey::ArrowRight => KeyState { right: pressed, ..s },
        NamedKey::Space => KeyState { walk: pressed, ..s },
        NamedKey::Shift => KeyState { shift: pressed, ..s },
        NamedKey::Escape => KeyState { escape: pressed, ..s },
        NamedKey::Enter => KeyState { enter: pressed, ..s },
        NamedKey::F1 => KeyState { f1: pressed, ..s },
        NamedKey::F5 => KeyState { f5: pressed, ..s },
        NamedKey::F8 => KeyState { f8: pressed, ..s },
        NamedKey::Other => s,
    }
}

/// The controls after a character key (its text as bytes) goes down or up:
/// WASD move, X peeks, R reloads, B opens the buy menu, the digits `1`..`5`,
/// G and L; either case of a letter.
pub open spec fn after_char(s: KeyState, text: Seq<u8>, pressed: bool) -> KeyState {
    if is_char_key(text, 119, 87) {
        KeyState { up: pressed, ..s }
    } else if is_char_key(text, 115, 83) {
        KeyState { down: pressed, ..s }
    } else if is_char_key(text, 97, 65) {
        KeyState { left: pressed, ..s }
    } else if is_char_key(text, 100, 68) {
        KeyState { right: pressed, ..s }
    } else if is_char_key(text, 120, 88) {
        KeyState { peek: pressed, ..s }
    } else if is_char_key(text, 114, 82) {
        KeyState { reload: pressed, ..s }
    } else if is_char_key(text, 98, 66) {
        KeyState { key_b: pressed, ..s }
    } else if is_char_key(text, 49, 49) {
        KeyState { key_1: pressed, ..s }
    } else if is_char_key(text, 50, 50) {
        KeyState { key_2: pressed, ..s }
    } else if is_char_key(text, 51, 51) {
        KeyState { key_3: pressed, ..s }
    } else if is_char_key(text, 52, 52) {
        KeyState { key_4: pressed, ..s }
    } else if is_char_key(text, 53, 53) {
        KeyState { key_5: pressed, ..s }
    } else if is_char_key(text, 103, 71) {
        KeyState { key_g: pressed, ..s }
    } else if is_char_key(text, 108, 76) {
        KeyState { key_l: pressed, ..s }
    } else {
        s
    }
}

impl KeyState {
    /// Nothing held.
    pub fn new() -> (r: KeyState)
        ensures
            r == (KeyState {
                up: false,
                down: false,
                left: false,
                right: false,
                shoot: false,
                walk: false,
                shift: false,
                peek: false,
                reload: false,
                escape: false,
                enter: false,
                key_b: false,
                f1: false,
                f5: false,
                f8: false,
                key_1: false,
                key_2: false,
                key_3: false,
                key_4: false,
                key_5: false,
                key_g: false,
                key_l: false,
                mouse_left: false,
                mouse_right: false,
            }),
    {
        KeyState {
            up: false,
            down: false,
            left: false,
            right: false,
            shoot: false,
            walk: false,
            shift: false,
            peek: false,
            reload: false,
            escape: false,
            enter: false,
            key_b: false,
            f1: false,
            f5: false,
            f8: false,
            key_1: false,
            key_2: false,
            key_3: false,
            key_4: false,
            key_5: false,
            key_g: false,
            key_l: false,
            mouse_left: false,
            mouse_right: false,
        }
    }

    /// A named key went down (`pressed`) or up.
    pub fn on_named_key(&mut self, key: NamedKey, pressed: bool)
        ensures
            *final(self) == after_named(*old(self), key, pressed),
    {
        let s = *self;
        *self = match key {
            NamedKey::ArrowUp => KeyState { up: pressed, ..s },
            NamedKey::ArrowDown => KeyState { down: pressed, ..s },
            NamedKey::ArrowLeft => KeyState { left: pressed, ..s },
            NamedKey::ArrowRight => KeyState { right: pressed, ..s },
            NamedKey::Space => KeyState { walk: pressed, ..s },
            NamedKey::Shift => KeyState { shift: pressed, ..s },
            NamedKey::Escape => KeyState { escape: pressed, ..s },
            NamedKey::Enter => KeyState { enter: pressed, ..s },
            NamedKey::F1 => KeyState { f1: pressed, ..s },
            NamedKey::F5 => KeyState { f5: pressed, ..s },
            NamedKey::F8 => KeyState { f8: pressed, ..s },
            NamedKey::Other => s,
        };
    }

    /// A character key, whose text is `text`, went down or up.
    pub fn on_character(&mut self, text: &str, pressed: bool)
        ensures
            *final(self) == after_char(*old(self), text.spec_bytes(), pressed),
    {
        let b = text.as_bytes();
        if b.len() != 1 {
            return;
        }
        let c = b[0];
        let s = *self;
        *self = if c == 119 || c == 87 {
            KeyState { up: pressed, ..s }
        } else if c == 115 || c == 83 {
            KeyState { down: pressed, ..s }
        } else if c == 97 || c == 65 {
            KeyState { left: pressed, ..s }
        } else if c == 100 || c == 68 {
            KeyState { right: pressed, ..s }
        } else if c == 120 || c == 88 {
            KeyState { peek: pressed, ..s }
        } else if c == 114 || c == 82 {
            KeyState { reload: pressed, ..s }
        } else if c == 98 || c == 66 {
            KeyState { key_b: pressed, ..s }
        } else if c == 49 {
            KeyState { key_1: pressed, ..s }
        } else if c == 50 {
            KeyState { key_2: pressed, ..s }
        } else if c == 51 {
            KeyState { key_3: pressed, ..s }
        } else if c == 52 {
            KeyState { key_4: pressed, ..s }
        } else if c == 53 {
            KeyState { key_5: pressed, ..s }
        } else if c == 103 || c == 71 {
            KeyState { key_g: pressed, ..s }
        } else if c == 108 || c == 76 {
            KeyState { key_l: pressed, ..s }
        } else {
            s
        };
    }

    /// The keys that drive the buy menu: `B` and the digits `1`..`5`.
    pub fn buy_keys(&self) -> (r: BuyKeys)
        ensures
            r.buy == self.key_b,
            r.digits@ == seq![self.key_1, self.key_2, self.key_3, self.key_4, self.key_5],
    {
        let r = BuyKeys { buy: self.key_b, digits: [self.key_1, self.key_2, self.key_3, self.key_4, self.key_5] };
        assert(r.digits@ =~= seq![self.key_1, self.key_2, self.key_3, self.key_4, self.key_5]);
        r
    }

    /// A mouse button went down or up: the left button also fires.
    pub fn on_mouse_button(&mut self, button: MouseButton, pressed: bool)
        ensures
            *final(self) == (match button {
                MouseButton::Left => KeyState { mouse_left: pressed, shoot: pressed, ..*old(self) },
                MouseButton::Right => KeyState { mouse_right: pressed, ..*old(self) },
                MouseButton::Other => *old(self),
            }),
    {
        match button {
            MouseButton::Left => {
                self.mouse_left = pressed;
                self.shoot = pressed;
            },
            MouseButton::Right => self.mouse_right = pressed,
            MouseButton::Other => {},
        }
    }
}

} // verus!
