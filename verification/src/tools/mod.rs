//! The decisions of the stand-alone programs.

pub mod kill;
pub mod signals;
pub mod test_helper;
