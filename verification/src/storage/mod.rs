pub mod codec;
pub mod objects;
pub mod refs;
pub mod repo;
pub mod utils;
