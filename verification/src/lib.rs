//! An interactive terminal command prompt library: a hierarchical command
//! registry with prefix-based autocomplete and argument-aware hinting, the
//! editable prompt session state driven by key events, and the supporting
//! colour, localization, game-content and inventory utilities.

pub mod color;
pub mod command;
pub mod inventory;
pub mod localization;
pub mod progress;
pub mod registries;
pub mod session;
pub mod text;
pub mod theme;
