pub mod blob;
pub mod branch;
pub mod change;
pub mod commit;
pub mod delta;
pub mod pack;
pub mod tag;
pub mod unpack;
