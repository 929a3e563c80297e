pub mod diff;
pub mod log;
