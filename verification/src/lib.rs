//! Configuration, key-binding, escape-sequence and pane-layout logic of the
//! hyper-revamp terminal, with its behaviour stated as Verus contracts.

pub mod text;
pub mod platform;
pub mod keymap;
pub mod modes;
pub mod input;
pub mod mouse;
pub mod links;
pub mod ssh_url;
pub mod menu;
pub mod shell;
pub mod ssh;
pub mod palette;
pub mod json;
pub mod model;
pub mod resolve;
pub mod theme;
pub mod workspace;
pub mod paths;
pub mod env;
pub mod keymap_build;
pub mod grid;
pub mod session_state;
pub mod ipc;
pub mod event;
pub mod config;
pub mod typed_root;
pub mod snapshot;
pub mod term_theme;
pub mod settings;
pub mod search;
