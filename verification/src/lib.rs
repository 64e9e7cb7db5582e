//! The verified core of a small coding agent: what its tools may do, what it makes of
//! the replies of the model, what its screen shows and what its sessions keep.

pub mod agent;
pub mod app;
pub mod cli;
pub mod config;
pub mod conversation;
pub mod document;
pub mod edit_file;
pub mod entry;
pub mod history;
pub mod interactive;
pub mod json;
pub mod patch_file;
pub mod path;
pub mod plugin;
pub mod screen;
pub mod text;
pub mod tools;
pub mod wasm_tool;
