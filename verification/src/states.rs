//! The states a process runs through.

pub mod client;
pub mod server;
