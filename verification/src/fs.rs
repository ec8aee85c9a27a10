pub mod file;
pub mod listing;
pub mod system;
