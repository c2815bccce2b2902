//! Verified core of a console-to-messenger bridge: it frames the undelimited
//! line stream of an interactive console into per-command output frames,
//! splits frames into size-bounded delivery chunks, and compiles the
//! console's own help listing into a routable command table.
//!
//! The pieces: [`sentinel`] frames each command for the console's input so
//! that its output can be delimited; [`decoder`] turns the console's raw
//! output lines into [`frame::OutputFrame`]s; [`chunker`] splits a frame
//! into delivery units within the transport's size limit; [`command`]
//! compiles the help listing into the command table and reverses the name
//! normalization when routing; [`bridge`] holds the coordinator's decisions
//! and its correlation state machine; [`config`] decides the configuration
//! from parsed option values; [`game`] knows the one console dialect the
//! bridge is tuned to.

pub mod bridge;
pub mod chunker;
pub mod command;
pub mod config;
pub mod decoder;
pub mod frame;
pub mod game;
pub mod sentinel;
