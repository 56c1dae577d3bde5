pub mod input;
pub mod keys;
pub mod laws;
