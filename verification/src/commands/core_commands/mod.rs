pub mod add;
pub mod catfile;
pub mod hash_object;
pub mod index;
pub mod status;
