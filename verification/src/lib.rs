//! Verified core of an installer that patches an Electron game's `app.asar`.

pub mod text;
pub mod asar;
pub mod path_order;
pub mod steam;
pub mod detect;
pub mod steam_dirs;
pub mod installer;
pub mod install;
pub mod config;
pub mod ui;
pub mod session;
