//! The keyed store: its interface, its mathematical model and the store
//! that the server uses.

pub mod default_server_state;
pub mod model;
pub mod server_state;
