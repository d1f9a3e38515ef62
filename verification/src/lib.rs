//! Recovers discrete log and audio frames from a continuous serial byte
//! stream that arrives in arbitrary chunks, by locating the fixed
//! synchronization marker that terminates each audio frame.

pub mod config;
pub mod constants;
pub mod laws;
pub mod parser;
