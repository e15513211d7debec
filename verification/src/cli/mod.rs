//! The command line: what a command asks for, and how answers are shown.
pub mod args;
pub mod badge;
pub mod bmp;
pub mod dispatch;
pub mod laws;
pub mod notice;
pub mod route;
pub mod show;
pub mod wait;
