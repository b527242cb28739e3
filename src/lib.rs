pub mod address;
pub mod hash;
pub mod keys;
pub mod store;
pub mod model;
pub mod merkle;
pub mod laws;
