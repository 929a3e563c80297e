pub mod branching;
pub mod core_commands;
pub mod history;
pub mod remote;
