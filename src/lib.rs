//! A client library for the daemon control protocol: command encoding and an
//! incremental reply decoder.

pub mod command;
pub mod laws;
pub mod reply;
pub mod scan;
