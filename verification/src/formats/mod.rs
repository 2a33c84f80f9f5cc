//! The formats that can be diffed.
pub mod code;
pub mod cross;
pub mod json;
pub mod text;
pub mod toml;
pub mod yaml;
