//! Verified core of a keyboard- and gamepad-driven game launcher: the cover
//! carousel window, game descriptor parsing, the settings table, gamepad
//! input decisions and the terminal screen emulator.

pub mod covers;
pub mod entries;
pub mod joypad;
pub mod launch;
pub mod settings;
pub mod terminal;
pub mod text;
