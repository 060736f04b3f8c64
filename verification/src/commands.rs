pub mod ping;
pub mod profile;
pub mod spotify;
