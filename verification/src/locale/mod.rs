//! Support for the "current locale."

pub mod candidates;
pub mod names;
pub mod numeric;
