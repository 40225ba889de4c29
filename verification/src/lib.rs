//! Floresline launcher core: query parsing, desktop-entry parsing, fuzzy ranking and recents.
pub mod text;
pub mod calc;
pub mod desktop;
pub mod sorting;
pub mod recents;
pub mod fuzzy;
pub mod extras;
pub mod config;
pub mod launch;
pub mod query;
