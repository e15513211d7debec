//! tmux control mode (`tmux -CC`), without I/O: bytes in, typed events out.
//!
//! - [`mod@unescape`] undoes the octal escapes of `%output` data.
//! - [`layout`] reads window layout strings.
//! - [`parser`] frames lines, assembles command replies and reads notifications.
pub mod laws;
pub mod layout;
pub mod parser;
pub mod unescape;

pub use layout::{parse_layout, Cell, Layout};
pub use parser::{Event, Notification, Parser};
pub use unescape::unescape;
