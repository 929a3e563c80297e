pub mod idx_main;
pub mod idx_rm;
