//! Faction-themed wallpaper catalogue: the data model behind the picker,
//! the parser of the apply script's progress lines, and the gallery logic.
pub mod text;
pub mod order;
pub mod assoc;
pub mod model;
pub mod apply;
pub mod favorites;
pub mod gallery;
pub mod progress;
pub mod commands;
pub mod settings;
