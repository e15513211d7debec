//! gmux: a terminal multiplexer for coding agents, and what its parts promise.
//!
//! - [`vt`] is the terminal: the grid, its colors, and the notifications that escape sequences carry.
//! - [`tmux`] reads tmux's control mode; [`remote`] mirrors a remote tmux session.
//! - [`mux`] holds panes in windows and windows in sessions, and saves them.
//! - [`server`] answers requests and turns output into events; [`proto`] and [`pipe`] carry them.
//! - [`cli`], [`hooks`], [`shell_integration`] and [`notify`] are what users and agents meet.
//!
//! Nothing here reads a file, a clock or a socket. Functions take what was read as plain values, and
//! return what is to be written or started.
pub mod cli;
pub mod conpty;
pub mod console;
pub mod crash;
pub mod hooks;
pub mod json;
pub mod lists;
pub mod mux;
pub mod notify;
pub mod pairs;
pub mod pipe;
pub mod proto;
pub mod remote;
pub mod server;
pub mod shell_integration;
pub mod text;
pub mod tmux;
pub mod vt;
