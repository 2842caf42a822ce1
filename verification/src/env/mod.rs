//! Where the shell finds itself and its files.

pub mod config_paths;
pub mod parts;
