//! Verified core of a manager for Java game servers: the line-based packet
//! protocol spoken between the control shell and the daemon, the checks and
//! launch plans for managed servers, the control shell's command dispatch,
//! and the byte-copying step of the stream reader.
pub mod cli;
pub mod control;
pub mod error;
pub mod net;
pub mod server;
pub mod threadutil;
mod text;
