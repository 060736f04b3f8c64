//! The verified core of a chat bot that tracks music listening: play
//! counters with an atomic insert-or-increment, descending top-N reports,
//! command dispatch, presence-activity detection, user records, and the
//! rendering of log lines and timestamps.

pub mod activity;
pub mod commands;
pub mod listens;
pub mod text;
pub mod user;
pub mod util;
