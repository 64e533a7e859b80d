//! Weapons and weapon attachments.

pub mod attachment;
pub mod catalog;
pub mod loadout;
