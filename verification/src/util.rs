pub mod colour;
pub mod log;
pub mod time;
