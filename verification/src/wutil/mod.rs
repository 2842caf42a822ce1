//! Wide character versions of functions on paths, files and characters.

pub mod cd_laws;
pub mod files;
pub mod normal_laws;
pub mod output;
pub mod path;
pub mod path_laws;
pub mod realpath;
