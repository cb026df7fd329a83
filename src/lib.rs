pub mod debversion;
pub mod packages;
