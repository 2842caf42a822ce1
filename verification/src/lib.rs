//! Verified shell support: path handling, locale selection, output, option parsing and the
//! decisions behind a set of small builtins.

pub mod builtins;
pub mod env;
pub mod locale;
pub mod man_pages;
pub mod notifier;
pub mod number;
pub mod terminal;
pub mod text;
pub mod tools;
pub mod wutil;
