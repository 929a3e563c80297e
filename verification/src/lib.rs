//! A small version control system in the manner of Git: object encodings,
//! delta compression, packfiles, the staging index and the change model,
//! each with its contract.

pub mod bytes;
pub mod commands;
pub mod decimal;
pub mod keyed;
pub mod lines;
pub mod paths;
pub mod storage;
pub mod text;
