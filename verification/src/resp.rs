//! The protocol, the store and the commands.

pub mod command_dispatcher;
pub mod command_laws;
pub mod commands;
pub mod connection;
pub mod equality;
pub mod laws;
pub mod lines;
pub mod protocol;
pub mod state;
pub mod text;
