pub mod remote;
