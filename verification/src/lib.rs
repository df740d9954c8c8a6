//! A local trace store and the logic of its query API and terminal
//! viewer, with the behaviour of each operation stated and proved.

pub mod sorting;
pub mod text;
pub mod types;
pub mod waterfall;
pub mod store;
pub mod api;
pub mod app;
pub mod keymap;
