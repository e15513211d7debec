//! Terminal state: a grid driven by an emulator, and the events that a terminal reports.
//!
//! - [`color`] resolves logical colors against a palette.
//! - [`decode`] holds the payload decoders.
//! - [`emulator`] drives the grid and finds escape sequences.
//! - [`osc`] reads OSC sequences.
//! - [`terminal`] puts them together.
pub mod color;
pub mod decode;
pub mod emulator;
pub mod laws;
pub mod osc;
pub mod sequences;
pub mod terminal;

pub use color::{Palette, Rgb};
pub use osc::{Notification, NotifyKind, ProgressState, PromptMark, TermEvent, Urgency};
pub use terminal::{Cell, Terminal};
