//! The multiplexer server: the session that a daemon owns, and what its clients ask of it.
pub mod accounts;
pub mod apart;
pub mod config;
pub mod drain;
pub mod import;
pub mod laws;
pub mod model;
pub mod render;
pub mod requests;
pub mod seen;
pub mod state;
pub mod wires;

pub use state::{Place, Server, Step, Tick};
